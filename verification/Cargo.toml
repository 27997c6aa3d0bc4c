[package]
name = "gitcode-jupyter-tool"
version = "0.1.0"
edition = "2021"
publish = false

[dependencies]
anyhow = "1"
base64 = "0.22"
chrono = "0.4"
clap = { version = "4", features = ["derive"] }
flate2 = "1"
httpdate = "1"
libc = "0.2"
rand = "0.8"
regex = "1"
reqwest = { version = "0.12", default-features = false, features = ["blocking", "json", "rustls-tls"] }
serde = { version = "1", features = ["derive"] }
serde_json = "1"
tar = "0.4"
tiny_http = "0.12"
tungstenite = { version = "0.26", features = ["rustls-tls-webpki-roots"] }
url = "2"
urlencoding = "2"
