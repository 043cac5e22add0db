[package]
name = "rmw"
version = "0.1.0"
edition = "2021"
publish = false

[dependencies]
twox-hash = "=1.6.3"
z85 = "=3.0.7"
ed25519-dalek-blake3 = "=1.0.11"
x25519-dalek = { version = "=2.0.1", features = ["static_secrets"] }
xxblake3 = "=0.0.9"
rmw_str = "=0.0.7"
rand = "0.8"
anyhow = "=1.0.104"
async-std = "=1.13.2"
parking_lot = "=0.12.5"
log = "=0.4.35"
fern = "=0.6.2"
colored = "=2.2.0"
chrono = "=0.4.45"
rayon = "=1.12.0"
num_cpus = "=1.17.0"
rocksdb = { version = "=0.19.0", default-features = false }
trust-dns-resolver = { version = "=0.21.2", features = ["dns-over-https-rustls"] }
