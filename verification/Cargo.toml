[package]
name = "bomb_grid"
version = "0.1.0"
edition = "2021"
publish = false

[dependencies]
hashbrown = "*"
itertools = "*"
log = "*"
env_logger = "*"
