[package]
name = "truckmap"
version = "0.1.0"
edition = "2021"
publish = false

[dependencies]
image = { version = "0.21", default-features = false, features = ["png_codec"] }
memmap = "0.7"
reqwest = { version = "0.12", default-features = false, features = ["blocking", "rustls-tls"] }
serde = { version = "1", features = ["derive"] }
serde_json = "1"
winapi = { version = "0.3", features = ["winnt"] }
