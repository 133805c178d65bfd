[package]
name = "zkdtvm_stark_verifier"
version = "0.8.0"
edition = "2021"
publish = false

[dependencies]
dt-p3-air = "=0.8.0"
dt-p3-baby-bear = "=0.8.0"
dt-p3-challenger = "=0.8.0"
dt-p3-commit = "=0.8.0"
dt-p3-dft = "=0.8.0"
dt-p3-field = "=0.8.0"
dt-p3-fri = "=0.8.0"
dt-p3-koala-bear = "=0.8.0"
dt-p3-matrix = "=0.8.0"
dt-p3-maybe-rayon = { version = "=0.8.0", features = ["parallel"] }
dt-p3-merkle-tree = "=0.8.0"
dt-p3-poseidon2 = "=0.8.0"
dt-p3-symmetric = "=0.8.0"
dt-p3-util = "=0.8.0"
anyhow = "=1.0.104"
bincode = "=1.3.3"
clap = { version = "=4.6.7", features = ["derive"] }
hashbrown = "=0.14.5"
num_cpus = "=1.17.0"
serde = { version = "=1.0.229", features = ["derive"] }
sha2 = "=0.10.9"
tracing = "=0.1.44"
tracing-subscriber = { version = "=0.3.23", features = ["env-filter"] }

[dev-dependencies]
rand = "=0.8.8"
rand_xoshiro = "=0.6.0"
