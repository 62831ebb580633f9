[package]
name = "inner_product_proof"
version = "0.1.0"
edition = "2021"
publish = false

[dependencies]
curve25519-dalek = { version = "4", features = ["digest", "rand_core"] }
sha2 = "0.10"
merlin = "3"

[dev-dependencies]
rand = "0.8"
