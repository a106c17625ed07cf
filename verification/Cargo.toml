[package]
name = "kexplore"
version = "0.1.0"
edition = "2021"
publish = false

[dependencies]
ash = "0.38"
bytemuck = { version = "1", features = ["derive"] }
fontdue = "0.9"
image = { version = "0.25", default-features = false, features = ["png", "jpeg", "webp"] }
libc = "0.2"
resvg = { version = "0.45", default-features = false }
wayland-client = "0.31"
wayland-backend = { version = "0.3", features = ["client_system", "dlopen"] }
wayland-cursor = "0.31"
wayland-protocols = { version = "0.32", features = ["client", "staging", "unstable"] }
xkbcommon = "0.8"
