[package]
name = "runik"
version = "0.1.0"
edition = "2021"
publish = false

[dependencies]
riscv-decode = "*"
xmas-elf = "*"
riscv = "*"
