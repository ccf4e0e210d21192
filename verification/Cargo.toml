[package]
name = "store_escape_fixup"
version = "0.1.0"
edition = "2021"
publish = false

[dependencies]
terminus-store = "=0.21.5"
tdb-succinct = "=0.1.2"
bytes = "=1.12.1"
tokio = { version = "=1.53.2", features = ["full"] }
clap = { version = "=4.6.7", features = ["derive"] }
chrono = "=0.4.45"
