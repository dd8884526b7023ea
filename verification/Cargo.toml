[package]
name = "dsfs"
version = "0.1.0"
edition = "2021"
publish = false

[dependencies]
clap = { version = "4", features = ["cargo"] }
env_logger = "0.10"
fuser = { version = "0.14", default-features = false }
libc = "0.2"
thiserror = "1"
