[package]
name = "aux_gate"
version = "0.1.0"
edition = "2021"
publish = false

[dependencies]
ff = "*"
halo2_proofs = "*"
poseidon = "*"
