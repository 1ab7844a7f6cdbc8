[package]
name = "excel_emulator"
version = "0.1.0"
edition = "2021"
publish = false

[dependencies]
petgraph = "0.6"
ndarray = "0.15"
chrono = { version = "0.4", default-features = false, features = ["std"] }
clap = { version = "3.2", features = ["derive"] }
indicatif = "0.17"
quick-xml = "0.22"
zip = { version = "0.6", default-features = false, features = ["deflate"] }
thiserror = "1.0"
