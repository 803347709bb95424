[package]
name = "bl602_script"
version = "0.1.0"
edition = "2021"
publish = false

[dependencies]
rhai = { version = "*", features = ["internals"] }
serde = { version = "*", features = ["derive"] }
serde_json = "*"
wee_alloc = "*"
