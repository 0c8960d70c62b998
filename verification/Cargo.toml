[package]
name = "trace_gen"
version = "0.1.0"
edition = "2021"
publish = false

[dependencies]
rayon = "1"
serde = { version = "1", features = ["derive"] }
simd-json = "*"
structopt = "0.3"
log = "0.4"
pretty_env_logger = "*"
