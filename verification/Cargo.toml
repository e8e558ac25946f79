[package]
name = "zkpolicy"
version = "0.1.0"
edition = "2021"
publish = false

[dependencies]
halo2_proofs = "0.3"
halo2_gadgets = "0.5"
halo2curves = "*"
blake2 = "0.10"
blake3 = "1"
base64 = "0.22"
num-bigint = "0.4"
once_cell = "1"
rand = "0.8"
rand_core = { version = "0.6", features = ["getrandom"] }
rayon = "1"
serde = { version = "1", features = ["derive"] }
serde_json = "1"
serde_yaml = "0.9"
anyhow = "1"
array-init = "2"
ark-std = "*"
antlr4rust = "*"
