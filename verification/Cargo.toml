[package]
name = "mus"
version = "0.1.0"
edition = "2021"
publish = false

[dependencies]
directories = "*"
druid = "*"
log = "*"
pretty_env_logger = "*"
rodio = "*"
rusqlite = { version = "*", features = ["bundled"] }
taglib = "*"
thiserror = "*"
walkdir = "*"
