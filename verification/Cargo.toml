[package]
name = "store_vec"
version = "0.1.0"
edition = "2021"
publish = false

[dependencies]
borsh = { version = "=1.8.1", features = ["derive"] }

[dev-dependencies]
rand = "=0.8.8"
rand_xorshift = "=0.3.0"
