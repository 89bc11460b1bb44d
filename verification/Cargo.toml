[package]
name = "nixup"
version = "0.4.0"
edition = "2021"
publish = false

[dependencies]
anyhow = "1"
bincode = "1"
colored = "2"
diesel = { version = "1.4", default-features = false, features = ["sqlite"] }
dirs-next = "2"
libc = "0.2"
pico-args = "0.5"
serde = "1"
serde_derive = "1"
