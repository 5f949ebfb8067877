[package]
name = "dropignore"
version = "0.1.0"
edition = "2021"
publish = false

[dependencies]
anyhow = "1"
clap = "4.5"
env_logger = "0.11"
inotify = "0.11"
libc = "0.2"
log = "0.4"
signal-hook = "0.3"
