[package]
name = "crystarium"
version = "0.1.0"
edition = "2021"
publish = false

[dependencies]
byteorder = "1"
actix-web = { version = "4", default-features = false, features = ["macros"] }
actix-files = "0.6"
actix-multipart = "0.6"
askama = "0.12"
env_logger = { version = "0.11", default-features = false }
lazy_static = "1"
log = "0.4"
