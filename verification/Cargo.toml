[package]
name = "mcproto"
version = "0.1.0"
edition = "2021"
publish = false

[dependencies]
hematite-nbt = "*"

[dev-dependencies]
uuid = { version = "*", features = ["v5"] }
