[package]
name = "zatlas"
version = "0.1.0"
edition = "2021"
publish = false

[dependencies]
blake3 = "*"
chrono = "*"
clap = { version = "*", features = ["derive"] }
gix = "*"
globset = "*"
ignore = "*"
notify-debouncer-full = "*"
num_cpus = "*"
r2d2 = "*"
r2d2_sqlite = { version = "*", features = ["bundled"] }
rayon = "*"
serde = { version = "*", features = ["derive"] }
serde_json = "*"
thiserror = "*"
toml = "*"
tree-sitter = "*"
tree-sitter-go = "*"
tree-sitter-javascript = "*"
tree-sitter-python = "*"
tree-sitter-rust = "*"
tree-sitter-typescript = "*"

[dev-dependencies]
tempfile = "*"
