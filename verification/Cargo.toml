[package]
name = "bread"
version = "0.1.0"
edition = "2021"
publish = false

[dependencies]
memfd = "0.6"
memmap2 = "0.9"
ab_glyph = "0.2"
clap = { version = "4", features = ["derive"] }
mio = { version = "1", features = ["os-poll", "os-ext"] }
nonblock = "0.2"
rust-fontconfig = "*"
wayland-client = "0.31"
wayland-protocols-wlr = { version = "0.3", features = ["client"] }
