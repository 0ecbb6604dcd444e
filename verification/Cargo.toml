[package]
name = "mydisk"
version = "0.1.0"
edition = "2021"
publish = false

[dependencies]
heapless = "0.8"
pasts = "0.14"
async-std = "1"
chrono = "0.4"
riscv = "0.10"
