[package]
name = "slam"
version = "0.1.0"
edition = "2021"
publish = false

[dependencies]
anyhow = "=1.0.104"
clap = { version = "=3.2.25", features = ["derive"] }
dirs = "=7.0.0"
log = "=0.4.34"
osqp = "=0.6.3"
serde = { version = "=1.0.229", features = ["derive"] }
serde_json = "=1.0.154"
simple_logger = "=5.2.0"
xcb = { version = "1", features = ["randr"] }
