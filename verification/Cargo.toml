[package]
name = "sweet"
version = "0.1.0"
edition = "2021"
publish = false

[dependencies]
anyhow = "*"
itertools = "*"
pest = "*"
pest_derive = "*"
thiserror = "*"
