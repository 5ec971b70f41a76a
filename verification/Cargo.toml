[package]
name = "vt7tool"
version = "0.1.0"
edition = "2021"
publish = false

[dependencies]
flate2 = "*"
zstd = "*"
sha2 = "*"
xml-rs = "*"
clap = { version = "*", features = ["derive"] }
fern = "*"
log = "*"
