[package]
name = "jsonb"
version = "0.1.0"
edition = "2021"
publish = false

[dependencies]
ethnum = "=1.5.3"
fast-float2 = "=0.2.4"
serde = { version = "=1.0.229", features = ["derive"] }
