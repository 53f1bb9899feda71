[package]
name = "beam_tables"
version = "0.1.0"
edition = "2021"
publish = false

[dependencies]
anyhow = "=1.0.104"
clap = { version = "=4.6.7", features = ["derive"] }
eetf = "=0.12.0"
libflate = "=1.4.0"

[dev-dependencies]
beam_file = "=0.3.1"
