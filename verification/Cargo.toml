[package]
name = "juicer"
version = "0.1.0"
edition = "2021"
publish = false

[dependencies]
bech32 = "=0.9.1"
poseidon-rs = "=0.0.10"
ff_ce = "=0.11.0"
cosmwasm-std = "=1.5.11"
cw2 = "=1.1.2"
cw-storage-plus = "=1.2.0"
cw-utils = "=1.0.3"
schemars = "=0.8.22"
serde = { version = "=1.0.229", features = ["derive"] }
thiserror = "=1.0.69"
