[package]
name = "dendrite"
version = "0.1.0"
edition = "2021"
publish = false

[dependencies]
bytes = "1"
data-encoding = "2"
futures-util = "0.3"
hex = "0.4"
multibase = "0.9"
openssl = "0.10"
rand = "0.9"
reqwest = { version = "0.12", default-features = false, features = ["stream"] }
serde = { version = "1", features = ["derive"] }
sha1 = "0.10"
sha2 = "0.10"
thiserror = "2"
tokio = { version = "1", features = ["full"] }
tokio-util = { version = "0.7", features = ["rt"] }
tracing = "0.1"
url = "2"
