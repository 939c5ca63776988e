[package]
name = "stark_backend"
version = "0.1.0"
edition = "2021"
publish = false

[dependencies]
p3-baby-bear = "0.4"
p3-challenger = "0.4"
p3-dft = "0.4"
p3-field = "0.4"
p3-matrix = "0.4"
p3-symmetric = "0.4"
p3-util = "0.4"
serde = { version = "1", features = ["derive"] }
thiserror = "1"

[dev-dependencies]
blake3 = "1"
zkhash = "0.2"
