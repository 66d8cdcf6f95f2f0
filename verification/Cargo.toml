[package]
name = "storage-proofs-update"
version = "0.1.0"
edition = "2021"
publish = false

[dependencies]
bellperson = "=0.27.0"
blstrs = "=0.7.1"
ff = "=0.13.1"
filecoin-hashers = { version = "=14.1.0", default-features = false, features = ["poseidon", "sha256"] }
generic-array = "=0.14.9"
storage-proofs-core = { version = "=19.1.0", default-features = false }

[dev-dependencies]
merkletree = "=0.23.0"
