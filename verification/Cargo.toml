[package]
name = "neb"
version = "0.1.0"
edition = "2021"
publish = false

[dependencies]
linked-hash-map = "=0.5.6"
smallvec = "=1.16.4"
rand = "0.8"
parking_lot = "=0.12.5"
rayon = "=1.12.0"
log = "=0.4.35"
futures = "=0.3.34"
tokio = { version = "=1.54.1", features = ["rt", "time", "macros"] }
serde = { version = "=1.0.229", features = ["derive"] }
num_cpus = "=1.17.0"
