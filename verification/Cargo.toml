[package]
name = "degrados"
version = "0.1.0"
edition = "2021"
publish = false

[dependencies]
multiboot2 = "*"
spin = "*"
volatile = "0.2"
x86 = "*"
