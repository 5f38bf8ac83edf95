[package]
name = "sourcemap_resolver"
version = "0.1.0"
edition = "2021"
publish = false

[dependencies]
sourcemap = "*"
anyhow = "*"
thiserror = "*"

[dependencies.clap]
version = "*"
features = ["derive"]
