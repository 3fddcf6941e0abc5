# wl-android

Shows a Linux desktop that runs in a container on the screen of an Android
device. A Wayland server takes the frames of the desktop's compositor, and an
Android App shows them and sends touches and keys back. A second, smaller path
relays dmabuf frames from a wlroots compositor to a Vulkan display.

The logic is a library written in Verus: its contracts are proved, not only
tested.

## Layout

- `src/` is the library.
  - Wire formats: `wire`, `proto`, `protocol`, `transport`, `ahb_handle`.
  - Frames: `frame_router` (which frame goes to the App, and when),
    `frame_cache` and `damage` (two buffers repainted by damage, and why that is
    enough), `frame_mem`, `surface_tree`, `dmabuf`, `feedback`.
  - The server: `state`, `touch`, `paths`.
  - The relay: `forwarder`, `socket_server`, `frame_intake`, `types`.
  - The App: `session`, `app_state`, `jni_bridge`, `ahb`.
  - Vulkan decisions: `render`, `blit`, `vulkan`, `probe`.
  - `text` and `testutil` serve the others.
- `tests/` runs the library from outside.
- `app/` holds the programs and entry points: sockets, memory mappings, Vulkan,
  the Wayland event loop and JNI. They hand plain values to the library and act
  on what it decides.

File descriptors are a type parameter of the library. The programs use
`OwnedFd`; the tests use numbers.

## What is trusted

Three calls are taken at their word: two of `zerocopy`, which turn words into
bytes and back, in `src/wire.rs`, and `String::from_utf8_lossy` in
`src/probe.rs`. Their contracts say what is believed of them.
