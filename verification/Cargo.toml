[package]
name = "dcc_sph"
version = "0.1.0"
edition = "2021"
publish = false

[dependencies]
rayon = "=1.12.0"

[dev-dependencies]
cargo_toml = "*"
cargo-lock = "*"
