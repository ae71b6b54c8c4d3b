[package]
name = "orbit_index"
version = "0.1.0"
edition = "2021"
publish = false

[dependencies]
hdk = "=0.7.0"
serde = { version = "*", features = ["derive"] }
serde_json = "=1.0.151"
