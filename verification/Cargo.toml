[package]
name = "krate"
version = "0.1.0"
edition = "2021"
publish = false

[dependencies]
aead = { version = "0.5", features = ["stream", "alloc", "std"] }
argon2 = "0.5"
chacha20poly1305 = "0.10"
flate2 = "1"
rand = "0.9"
tar = "0.4"
zeroize = "1"
walkdir = "2"
serde = { version = "1", features = ["derive"] }
bytes = "1"
http = "1"
http-body-util = "0.1"
hyper = { version = "1", features = ["http1", "server", "client"] }
hyper-util = { version = "0.1", features = ["client-legacy", "http1", "tokio"] }
hyper-rustls = { version = "0.27", default-features = false, features = ["http1", "native-tokio", "ring", "tls12"] }
rustls = { version = "0.23", default-features = false, features = ["ring", "std", "tls12"] }
tokio = { version = "1", features = ["rt-multi-thread", "net", "sync", "time", "io-util", "macros"] }
sysinfo = "0.33"
image = { version = "0.25", default-features = false, features = ["png", "jpeg"] }
