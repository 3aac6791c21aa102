[package]
name = "por_sim"
version = "0.2.0"
edition = "2021"
publish = false

[dependencies]
twox-hash = "1.6"
hashbrown = "0.14"
hashers = "1"
rand = "0.8"
getrandom = "0.2"
im-rc = "15"
clap = "2"
log = "0.4"
env_logger = "0.9"
num = "0.4"
conv = "0.3"
