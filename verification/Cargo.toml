[package]
name = "pool_oprf"
version = "0.1.0"
edition = "2021"
publish = false

[dependencies]
blake3 = "*"
rand = "*"
p3-baby-bear = "*"
p3-field = "*"
p3-symmetric = "*"
p3-air = "*"
p3-matrix = "*"
p3-uni-stark = "*"
p3-fri = "*"
p3-commit = "*"
p3-dft = "*"
p3-merkle-tree = "*"
p3-challenger = "*"
p3-blake3 = "*"
p3-blake3-air = "*"
p3-poseidon2-air = "*"
cryprot-core = "*"
cryprot-net = "*"
cryprot-ot = "*"
futures = "*"
tokio = { version = "*", features = ["macros", "rt-multi-thread", "sync", "time"] }
s2n-quic = "*"
clap = { version = "*", features = ["derive"] }
anyhow = "*"
serde = { version = "*", features = ["derive"] }
serde_bytes = "*"
thiserror = "*"
zeroize = { version = "*", features = ["derive"] }
subtle = "*"
