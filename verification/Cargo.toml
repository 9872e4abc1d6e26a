[package]
name = "wlshot"
version = "0.1.0"
edition = "2021"
publish = false

[dependencies]
clap = { version = "=4.6.7", features = ["derive"] }
png = "=0.18.1"
tempfile = "=3.27.0"
wayland-client = "=0.31.15"
wayland-protocols = { version = "=0.32.13", features = ["client", "unstable"] }
wayland-protocols-wlr = { version = "=0.3.12", features = ["client"] }
