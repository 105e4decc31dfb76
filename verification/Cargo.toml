[package]
name = "padkeys"
version = "0.1.0"
edition = "2021"
publish = false

[dependencies]
clap = "=4.6.7"
gilrs = { version = "=0.11.2", features = ["serde-serialize"] }
rdev = { version = "=0.5.3", features = ["serialize"] }
serde = { version = "=1.0.229", features = ["derive"] }
serde_json = "=1.0.151"
