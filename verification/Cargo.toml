[package]
name = "doc_cache"
version = "0.1.0"
edition = "2021"
publish = false

[dependencies]
anyhow = "1"
once_cell = "1"
serde = { version = "1", features = ["derive"] }
sxd-document = "0.3"
sxd-xpath = "0.4"
tokio = { version = "1", features = ["sync"] }
uuid = { version = "1", features = ["v4"] }
xmltree = { version = "0.10", features = ["attribute-order"] }
