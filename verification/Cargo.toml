[package]
name = "matter_backlight"
version = "0.1.0"
edition = "2021"
publish = false

[dependencies]
async-io = "=2.6.0"
async-signal = "=0.2.14"
dirs = "=6.0.0"
embassy-futures = "=0.1.2"
env_logger = "=0.11.11"
futures-lite = "=2.6.1"
log = "=0.4.35"
rand = "=0.8.8"
socket2 = "=0.6.5"
static_cell = "=2.1.1"
