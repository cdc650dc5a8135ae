[package]
name = "localzip"
version = "0.5.0"
edition = "2021"
publish = false

[dependencies]
zip = "2"
tar = "0.4"
flate2 = "1"
xz2 = "0.1"
bzip2 = "*"
zstd = "0.13"
sevenz-rust2 = "*"
rars = "0.4"
serde = { version = "1", features = ["derive"] }
serde_json = "1"
winreg = "*"
