[package]
name = "ulb_pwrap"
version = "0.1.0"
edition = "2021"
publish = false

[dependencies]
unicode-linebreak = "*"
