[package]
name = "minimint-benchmark"
version = "0.1.0"
edition = "2021"
publish = false

[dependencies]
async-trait = "=0.1.92"
bincode = "=1.3.3"
hbbft = "=0.1.1"
itertools = "=0.10.5"
rand = "=0.6.5"
rayon = "=1.12.0"
secp256k1-zkp = { version = "=0.6.0", features = ["global-context", "rand-std"] }
sled = "=0.34.7"
statistical = "=1.0.0"
structopt = "=0.3.26"
tempdir = "=0.3.7"
tokio = { version = "=1.54.1", features = ["full"] }
tracing = "=0.1.44"
tracing-subscriber = { version = "=0.3.23", features = ["env-filter"] }
