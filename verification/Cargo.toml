[package]
name = "exact_hnsw"
version = "0.1.0"
edition = "2021"
publish = false

[dependencies]
arrow = { version = "*", default-features = false }
arrow-array = { version = "*", default-features = false }
arrow-schema = { version = "*", default-features = false }
half = "*"
log = "*"
prost = "*"
rayon = "*"
