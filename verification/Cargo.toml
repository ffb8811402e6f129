[package]
name = "holosocket"
version = "0.1.0"
edition = "2021"
publish = false

[dependencies]
anyhow = "*"
async-std = { version = "*", features = ["unstable"] }
chrono = "*"
fern = "*"
futures = "*"
http-types = "*"
log = "*"
serde = { version = "*", features = ["derive"] }
serde_json = "*"
surf = { version = "*", default-features = false, features = ["h1-client-rustls"] }
tide = "*"
