[package]
name = "roanix"
version = "0.1.0"
edition = "2021"
publish = false

[dependencies]
fdt = "*"
limine = "0.5"
log = "0.4"
rustc-demangle = "0.1"
xmas-elf = "*"
