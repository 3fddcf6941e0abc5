//! Verified core of wl-android: the wire protocols that carry frames and input
//! between a Wayland compositor and an Android display App, and the state
//! machines on both ends of them.
//!
//! Sockets, memory mappings, Vulkan and the Wayland event loop stay outside:
//! they hand plain values in and act on the plain values that come out.

pub mod text;
pub mod wire;
pub mod proto;
pub mod frame_router;
pub mod frame_cache;
pub mod damage;
pub mod transport;
pub mod ahb_handle;
pub mod protocol;
pub mod types;
pub mod forwarder;
pub mod socket_server;
pub mod frame_intake;
pub mod dmabuf;
pub mod surface_tree;
pub mod touch;
pub mod frame_mem;
pub mod state;
pub mod jni_bridge;
pub mod session;
pub mod app_state;
pub mod ahb;
pub mod blit;
pub mod render;
pub mod vulkan;
pub mod paths;
pub mod feedback;
pub mod probe;
pub mod testutil;
