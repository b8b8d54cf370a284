[package]
name = "cow_archive"
version = "0.1.0"
edition = "2021"
publish = false

[dependencies]
bincode = "1.3"
rkyv = { version = "0.7", features = ["validation"] }
serde = { version = "1", features = ["derive"] }
