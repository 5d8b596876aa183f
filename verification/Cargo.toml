[package]
name = "sudoku_rust"
version = "0.1.0"
edition = "2021"
publish = false

[dependencies]
crossbeam = "0.8"
getopts = "0.2"
num_cpus = "1"
