[package]
name = "bridge_pool"
version = "0.1.0"
edition = "2021"
publish = false

[dependencies]
borsh = { version = "1", features = ["derive", "unstable__schema"] }
eyre = "=0.6.14"
thiserror = "=1.0.69"
tiny-keccak = { version = "=2.0.2", features = ["keccak"] }
