[package]
name = "release_order"
version = "0.1.0"
edition = "2021"
publish = false

[dependencies]
anyhow = "*"
bpaf = { version = "*", features = ["derive"] }
cargo_metadata = "*"
