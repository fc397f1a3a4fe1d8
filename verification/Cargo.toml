[package]
name = "atlas_packer"
version = "0.1.0"
edition = "2021"
publish = false

[dependencies]
image = "*"
log = "*"
serde = { version = "*", features = ["derive"] }
serde_json = "*"
simple_logger = "*"
structopt = "*"
