[package]
name = "wl_android"
version = "0.1.0"
edition = "2021"
publish = false

[dependencies]
zerocopy = "=0.8.63"
libc = "=0.2.191"
log = "=0.4.35"
tracing = "=0.1.44"
tracing-subscriber = { version = "=0.3.23", features = ["env-filter"] }
calloop = "=0.14.5"
drm-fourcc = "=2.2.0"
ash = "=0.38.0"
jni = "=0.21.1"
android_logger = "=0.15.1"
wayland-protocols = { version = "=0.32.13", features = ["server", "staging"] }
nix = { version = "=0.30.1", features = ["fs", "mman", "poll", "socket", "uio"] }
ndk-sys = { version = "=0.6.0", features = ["nativewindow", "test"] }
smithay = { version = "=0.7.0", default-features = false, features = ["wayland_frontend"] }
