[package]
name = "solana_graphs"
version = "0.1.0"
edition = "2021"
publish = false

[dependencies]
clap = { version = "4.5.8", features = ["derive"] }
petgraph = { version = "0.6.5", features = ["serde-1"] }
serde = { version = "1.0.203", features = ["derive"] }
serde_json = "1.0.120"
tree-sitter = "0.22"
tree-sitter-javascript = "0.21"
tree-sitter-rust = "0.21"
tree-sitter-typescript = "0.21"
walkdir = "2.5.0"
