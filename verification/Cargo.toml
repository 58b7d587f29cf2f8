[package]
name = "config_king"
version = "0.1.0"
edition = "2021"
publish = false

[dependencies]
colour = "*"
mlua = { version = "*", features = ["lua54", "vendored"] }
once_cell = "*"
