[package]
name = "lxp_scan"
version = "0.1.0"
edition = "2021"
publish = false

[dependencies]
anyhow = "=1.0.104"
clap = { version = "=4.6.7", features = ["derive"] }
comfy-table = "=7.2.2"
ignore = "=0.4.34"
jsonc-parser = { version = "=0.34.0", features = ["serde"] }
oxc_allocator = "=0.145.0"
oxc_ast = "=0.145.0"
oxc_ast_visit = "=0.145.0"
oxc_parser = "=0.145.0"
oxc_span = "=0.145.0"
ratatui = "=0.30.2"
rayon = "=1.12.0"
serde = { version = "=1.0.229", features = ["derive"] }
serde_json = "=1.0.154"
syntect = { version = "=5.3.0", default-features = false, features = ["default-fancy"] }
two-face = { version = "=0.5.2", default-features = false, features = ["syntect-fancy"] }
