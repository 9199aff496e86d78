[package]
name = "tangerine"
version = "0.1.0"
edition = "2021"
publish = false

[dependencies]
brotopuf = "*"
bytes = "1"
fjall = "2"
ordered-float = "*"
priority-queue = "*"
thiserror = "*"
