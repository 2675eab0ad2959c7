[package]
name = "filmliste"
version = "0.1.0"
edition = "2021"
publish = false

[dependencies]
chrono = { version = "0.4", default-features = false, features = ["std"] }
serde_json = { version = "1", features = ["raw_value"] }
twoway = "0.2"
xz2 = "0.1"
