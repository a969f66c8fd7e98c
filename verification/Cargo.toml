[package]
name = "interleague_schedule"
version = "0.1.0"
edition = "2021"
publish = false

[dependencies]
backtrack = "=0.1.1"
itertools = "=0.15.0"
