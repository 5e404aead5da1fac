[package]
name = "map_segments"
version = "0.1.0"
edition = "2021"
publish = false

[dependencies]
object = "=0.36.7"
serde_json = "=1.0.154"
cargo_metadata = "=0.23.1"
clap = { version = "=4.6.7", features = ["derive"] }
terminal_size = "=0.4.4"
