[package]
name = "markov_mania"
version = "0.1.0"
edition = "2021"
publish = false

[dependencies]
rand = "0.8"
dirs = "5"
druid = "0.8"
