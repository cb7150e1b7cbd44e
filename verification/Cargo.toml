[package]
name = "luminatti"
version = "0.1.0"
edition = "2021"
publish = false

[dependencies]
sha2 = "*"
tree-sitter = "*"
tree-sitter-typescript = "*"
tree-sitter-javascript = "*"
globset = "*"
serde = { version = "*", features = ["derive"] }
serde_json = "*"
git2 = { version = "*", default-features = false }
dirs = "*"
url = "*"
notify = "*"
notify-debouncer-mini = "*"
ratatui = { version = "*", default-features = false }
