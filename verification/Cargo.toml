[package]
name = "patina"
version = "0.1.0"
edition = "2021"
publish = false

[dependencies]
slab = "0.4"
arrayvec = "0.7"
itertools = "0.14"
anyhow = "1"
tokio = { version = "1", features = ["fs", "io-util", "macros", "rt", "rt-multi-thread"] }
rand = "0.9"
rand_xorshift = "0.4"
ordered-float = "5"
inari = "2"
rayon = "1"
parking_lot = "0.12"
indicatif = "0.17"
priority-queue = "2"
