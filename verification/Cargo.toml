[package]
name = "hyprhue"
version = "0.1.0"
edition = "2021"
publish = false

[dependencies]
anyhow = "1"
dtls = "*"
hex = "0.4"
log = "0.4"
memmap2 = "*"
nix = { version = "*", features = ["fs", "mman"] }
notify-rust = "4"
reqwest = { version = "0.12", default-features = false, features = ["json", "rustls-tls"] }
serde = { version = "1", features = ["derive"] }
serde_json = "1"
simplelog = "*"
tokio = { version = "1", features = ["full"] }
wayland-client = "0.31"
wayland-protocols-wlr = { version = "0.3", features = ["client"] }
