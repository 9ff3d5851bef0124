[package]
name = "radfetch"
version = "0.1.0"
edition = "2021"
publish = false

[dependencies]
git2 = { version = "0.13", default-features = false }
thiserror = "1"
tracing = "0.1"
