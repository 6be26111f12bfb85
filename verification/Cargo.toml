[package]
name = "scanflow"
version = "0.2.0"
edition = "2021"
publish = false

[dependencies]
iced-x86 = { version = "1", default-features = false, features = ["std", "decoder"] }
memflow = "0.2"
clap = { version = "3", features = ["cargo"] }
either = "1"
log = "0.4"
simplelog = "0.12"
scan_fmt = "0.2"
pbr = "1"
sudo = "0.6"
