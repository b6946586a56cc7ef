[package]
name = "utxo_chain"
version = "0.1.0"
edition = "2021"
publish = false

[dependencies]
sha2 = "0.10"
ripemd = "0.1"
hex = "0.4"
data-encoding = "2"
bs58 = "0.5"
num-bigint = "0.4"
num-integer = "0.1"
num-traits = "0.2"
ring = "0.17"
bincode = "1"
serde = { version = "1", features = ["derive"] }
clap = "2"
leveldb = "0.8"
byteorder = "1"
