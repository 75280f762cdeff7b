[package]
name = "landfill"
version = "0.1.0"
edition = "2021"
publish = false

[dependencies]
memmap2 = "=0.9.12"
seahash = "=4.1.0"
rand = "=0.8.8"
parking_lot = "=0.12.5"
bytemuck = { version = "=1.25.2", features = ["derive"] }
tempfile = "=3.27.0"
digest = "=0.10.7"

[dev-dependencies]
blake3 = { version = "1", default-features = false, features = ["pure"] }
