[package]
name = "nemo"
version = "0.1.0"
edition = "2021"
publish = false

[dependencies]
petgraph = "*"
graph-cycles = "*"
z3 = "*"
smtlib = "*"
itertools = "*"
