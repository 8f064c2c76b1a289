[package]
name = "trading_core"
version = "0.1.0"
edition = "2021"
publish = false

[dependencies]
rust_decimal = "=1.43.0"
tokio = { version = "=1.53.2", features = ["full"] }
tokio-rustls = { version = "0.26", default-features = false, features = ["ring", "tls12"] }
webpki-roots = "0.26"
