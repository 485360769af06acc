[package]
name = "pocket_femtanyl"
version = "0.1.0"
edition = "2021"
publish = false

[dependencies]
anyhow = "=1.0.104"
cairo-rs = "=0.22.9"
noise = "=0.9.0"
png = "=0.18.1"
quick-xml = "=0.41.0"
smithay-client-toolkit = { version = "=0.20.0", default-features = false, features = ["calloop"] }
