[package]
name = "adventofrust"
version = "0.1.0"
edition = "2021"
publish = false

[dependencies]
arrayvec = "*"
either = "*"
itertools = "*"
num = "*"
petgraph = "*"
smallstr = "*"
transpose = "*"
