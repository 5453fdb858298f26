[package]
name = "rebound"
version = "0.1.0"
edition = "2021"
publish = false

[dependencies]
config = { version = "=0.15.27", default-features = false, features = ["toml"] }
flume = "=0.12.0"
futures = { version = "=0.3.34", features = ["executor"] }
log = "=0.4.34"
log4rs = "=1.4.0"
serde = { version = "=1.0.229", features = ["derive"] }
surf = { version = "=2.3.2", default-features = false, features = ["h1-client-rustls"] }
tiny_http = { version = "=0.12.0", features = ["ssl-rustls"] }
