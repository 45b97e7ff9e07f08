[package]
name = "evefrontier_lib"
version = "0.1.0"
edition = "2021"
publish = false

[dependencies]
base64 = "0.22"
flate2 = "1"
sha2 = "0.10"
zstd = "0.13"
csv = "1"
directories = "5"
kiddo = "4"
once_cell = "1"
postcard = { version = "1", features = ["alloc"] }
reqwest = { version = "0.12", default-features = false, features = ["blocking", "json", "rustls-tls"] }
rusqlite = { version = "0.31", features = ["bundled"] }
serde = { version = "1", features = ["derive"] }
strsim = "0.11"
tempfile = "3"
thiserror = "1"
tracing = "0.1"
zip = { version = "2", default-features = false, features = ["deflate"] }
