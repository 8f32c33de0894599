[package]
name = "plan_fragmenter"
version = "0.1.0"
edition = "2021"
publish = false

[dependencies]
uuid = { version = "1", features = ["v4"] }
bytes = "1"
async-trait = "0.1"
