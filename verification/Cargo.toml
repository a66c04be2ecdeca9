[package]
name = "quadrille"
version = "0.1.0"
edition = "2021"
publish = false

[dependencies]
calamine = "=0.31.0"
csv = "=1.4.0"
roxmltree = "=0.21.2"
rust_decimal = "=1.43.0"
serde_json = "=1.0.154"
tempfile = "=3.27.0"
zip = { version = "4", default-features = false, features = ["deflate"] }
