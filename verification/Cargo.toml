[package]
name = "merkle_audit"
version = "0.1.0"
edition = "2021"
publish = false

[dependencies]
blake3 = "=1.8.7"
egui = "=0.27.2"
egui_extras = { version = "=0.27.2", default-features = false, features = ["image"] }
notify = { version = "=6.1.1", default-features = false, features = ["macos_kqueue"] }
open = "=5.4.5"
petgraph = { version = "=0.6.5", default-features = false }
rayon = "=1.12.0"
rfd = { version = "=0.14.1", default-features = false, features = ["xdg-portal", "async-std"] }
rodio = { version = "0.17", default-features = false, features = ["wav"] }
serde = { version = "=1.0.229", features = ["derive"] }
serde_json = "=1.0.154"
sha2 = "=0.10.9"
