[package]
name = "aoc"
version = "0.4.0"
edition = "2021"
publish = false

[dependencies]
clap = "2"
