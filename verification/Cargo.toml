[package]
name = "rapina-mcp"
version = "0.1.0"
edition = "2021"
publish = false

[dependencies]
rmcp = { version = "*", features = ["server", "macros"] }
serde = { version = "1", features = ["derive"] }
toml = "*"
