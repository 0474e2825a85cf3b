[package]
name = "rust_connectivity"
version = "0.1.0"
edition = "2021"
publish = false

[dependencies]
actix-web = "4"
bincode = "1"
fs-err = "2"
rayon = "1"
serde = { version = "1", features = ["derive"] }
serde_json = "1"
smallvec = { version = "1", features = ["serde"] }
