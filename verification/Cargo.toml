[package]
name = "sqware"
version = "0.1.0"
edition = "2021"
publish = false

[dependencies]
hashbrown = "=0.15.5"
riscv = "0.14"
semihosting = "=0.1.25"
