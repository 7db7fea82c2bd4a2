[package]
name = "kvs"
version = "0.1.0"
edition = "2021"
publish = false

[dependencies]
flate2 = "=1.1.10"
tokio = { version = "=1.53.2", features = ["rt", "rt-multi-thread", "net", "io-util", "macros", "time"] }
tokio-rustls = { version = "=0.26.6", default-features = false, features = ["ring", "tls12"] }
rustls-native-certs = "=0.8.4"
rustls-pemfile = "=2.2.0"
