[package]
name = "mdkb"
version = "0.1.0"
edition = "2021"
publish = false

[dependencies]
axum = "*"
chrono = { version = "*", default-features = false, features = ["clock"] }
fastembed = { version = "*", default-features = false, features = ["hf-hub", "ort-load-dynamic"] }
libc = "*"
rayon = "*"
ring = "*"
rmcp = { version = "*", default-features = false, features = ["server", "transport-streamable-http-server"] }
rusqlite = { version = "*", features = ["bundled"] }
serde = { version = "*", features = ["derive"] }
serde_json = "*"
subtle = "*"
tempfile = "*"
tokio = { version = "*", features = ["rt-multi-thread", "net", "signal", "macros"] }
tokio-util = "*"
tracing = "*"
tree-sitter = "*"
tree-sitter-rust = "*"
