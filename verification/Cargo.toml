[package]
name = "kernel_elf_loader"
version = "0.1.0"
edition = "2021"
publish = false

[dependencies]
elf = "0.8"
log = "0.4"
rand_core = "0.6"
bootloader_api = "0.11"
bootloader-boot-config = "0.11"
x86_64 = { version = "0.15", default-features = false, features = ["instructions"] }
