[package]
name = "pcg_mwc"
version = "0.1.0"
edition = "2021"
publish = false

[dependencies]
rand_core = "0.6"
serde = { version = "1", features = ["derive"] }
image = { version = "0.24", default-features = false, features = ["png"] }
