[package]
name = "similario"
version = "0.1.0"
edition = "2021"
publish = false

[dependencies]
bincode = "1"
bitvec = "1"
blake3 = "1"
chrono = "0.4"
clap = { version = "4", features = ["derive"] }
ctrlc = "3"
env_logger = "*"
filetime = "0.2"
hamming-bitwise-fast = "*"
humansize = "2"
image = { version = "0.25", default-features = false, features = ["png"] }
indicatif = "*"
log = "0.4"
ndarray = "*"
rayon = "1"
rustdct = "*"
rusty-chromaprint = "*"
serde = { version = "1", features = ["derive"] }
serde_json = "1"
symphonia = { version = "*", features = ["all"] }
thiserror = "*"
trash = "*"
