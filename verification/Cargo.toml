[package]
name = "leghorn"
version = "0.1.0"
edition = "2021"
publish = false

[dependencies]
clap = "2"
env_logger = "0.9"
libc = "0.2"
log = "0.4"
snafu = "0.6"
toml = "0.5"
