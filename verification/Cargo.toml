[package]
name = "evm_loader"
version = "0.1.0"
edition = "2021"
publish = false

[dependencies]
solana-program = "*"
rlp = "*"
evm = "*"
evm-runtime = "*"
log = "*"
fern = "*"
chrono = "*"
serde = { version = "*", features = ["derive"] }
