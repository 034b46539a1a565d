[package]
name = "copager"
version = "0.1.0"
edition = "2021"
publish = false

[dependencies]
regex = "1"
itertools = "*"
serde = { version = "1", features = ["derive"] }
thiserror = "*"
anyhow = "1"
syn = { version = "2", features = ["full"] }
quote = "1"
proc-macro2 = "1"
