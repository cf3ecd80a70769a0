[package]
name = "resym"
version = "0.1.0"
edition = "2021"
publish = false

[dependencies]
dashmap = "*"
regex = "*"
pdb = "*"
crossbeam-channel = "*"
rayon = "*"
num_cpus = "*"
