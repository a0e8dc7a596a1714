[package]
name = "coolify-qs"
version = "1.0.3"
edition = "2021"
publish = false

[dependencies]
clap = { version = "4", features = ["derive"] }
oxitls-rustcrypto-provider = "*"
reqwest = { version = "0.12", default-features = false, features = ["blocking", "rustls-tls-manual-roots-no-provider"] }
rustls = { version = "0.23", default-features = false, features = ["std", "tls12"] }
serde = { version = "1", features = ["derive"] }
serde_json = "1"
webpki-roots = "1"
zbus = "5"
