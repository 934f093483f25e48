[package]
name = "elfshaker"
version = "1.0.0"
edition = "2021"
publish = false

[dependencies]
chrono = "0.4"
clap = { version = "4", features = ["env"] }
crossbeam-utils = "0.8"
fs2 = "0.4"
hex = "0.4"
lazy_static = "1"
libc = "0.2"
log = "0.4"
num_cpus = "1"
rand = "0.9"
rayon = "1"
rmp-serde = "1"
rust-crypto = "0.2"
serde = { version = "1", features = ["derive"] }
thread_local = "1"
ureq = "2"
url = "2"
walkdir = "2"
zstd = { version = "0.13", features = ["zstdmt"] }
