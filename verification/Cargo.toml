[package]
name = "arbitro-client"
version = "0.1.0"
edition = "2021"
publish = false

[dependencies]
fastrand = "2"
bytes = "1"
libc = "0.2"
rusqlite = { version = "0.31", features = ["bundled"] }
rustls = { version = "0.23", default-features = false, features = ["ring", "std", "tls12"] }
thiserror = "1"
tokio = { version = "1", features = ["io-util", "macros", "net", "rt", "rt-multi-thread", "sync", "time"] }
tokio-rustls = { version = "0.26", default-features = false, features = ["ring", "tls12"] }
tokio-util = "0.7"
tracing = "0.1"
webpki-roots = "0.26"
