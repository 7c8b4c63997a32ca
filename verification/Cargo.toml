[package]
name = "rtkit"
version = "0.1.0"
edition = "2021"
publish = false

[dependencies]
crc = "=3.4.0"
secded = "=1.1.0"
reed-solomon-erasure = "=6.0.0"
zstd = "=0.13.4"
serde = { version = "=1.0.229", features = ["derive"] }
bincode = "=1.3.3"
socket2 = "=0.5.10"
nix = { version = "=0.29.0", features = ["time"] }
anyhow = "=1.0.104"
thiserror = "*"
rand = "*"
rustfft = "*"
faer = "*"
nalgebra = "*"
num-traits = "*"
