[package]
name = "trigpoint"
version = "0.1.0"
edition = "2021"
publish = false

[dependencies]
annotate-snippets = "=0.12.17"
ruff_python_parser = "=0.0.8"
ruff_python_ast = "=0.0.8"
ruff_text_size = "=0.0.8"
serde = { version = "=1.0.229", features = ["derive"] }
serde_json = "=1.0.154"
thiserror = "=2.0.21"
toml = "=0.8.23"
clap = { version = "=4.6.7", features = ["derive"] }
