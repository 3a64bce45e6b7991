[package]
name = "dicepass"
version = "0.1.0"
edition = "2021"
publish = false

[dependencies]
rand = "*"
serde = { version = "*", features = ["derive"] }
rmp-serde = "*"
xz2 = "*"
atty = "*"
log = "*"
