[package]
name = "triforce"
version = "0.1.0"
edition = "2021"
publish = false

[dependencies]
petgraph = "*"
rustworkx-core = "*"
clap = { version = "4", features = ["derive"] }
serde = { version = "1", features = ["derive"] }
serde_json = "1"
env_logger = "*"
log = "0.4"
rayon = "1"
scc = "*"
lru = "*"
ahash = "*"
itertools = "*"
