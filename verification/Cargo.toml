[package]
name = "mushroom"
version = "0.1.0"
edition = "2021"
publish = false

[dependencies]
bit_field = "0.10"
bitflags = "1"
bytemuck = { version = "1", features = ["derive"] }
crossbeam-queue = "0.3"
futures = { version = "0.3", features = ["async-await"] }
log = "0.4"
pin-project = "1"
spin = "0.9"
usize_conversions = "0.2"
x86_64 = { version = "0.14", default-features = false, features = ["instructions"] }
