[package]
name = "graph_simulation"
version = "0.1.0"
edition = "2021"
publish = false

[dependencies]
env_logger = "0.11"
fxhash = "0.2"
lazy_static = "1"
log = "0.4"
rand = "0.9"
rand_pcg = "0.9"
serde = { version = "1", features = ["derive"] }
serde_json = "1"
