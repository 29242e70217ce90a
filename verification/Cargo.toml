[package]
name = "asm_consensus"
version = "0.1.0"
edition = "2021"
publish = false

[dependencies]
clap = { version = "4", features = ["derive"] }
coitrees = "*"
eyre = "*"
itertools = "*"
log = "*"
noodles = { version = "*", features = ["bgzf", "core", "fasta"] }
paf = "*"
simple_logger = "*"
