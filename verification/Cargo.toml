[package]
name = "kvs"
version = "0.1.0"
edition = "2021"
publish = false

[dependencies]
dashmap = "*"
serde = { version = "*", features = ["derive"] }
clap = { version = "*", features = ["derive"] }
log = "*"
env_logger = "*"
dotenv = "*"
crossbeam = "*"
rayon = "*"
