[package]
name = "vb"
version = "0.1.0"
edition = "2021"
publish = false

[dependencies]
unicode-segmentation = "1"
text-splitter = "*"
anyhow = "1"
once_cell = "1"
rayon = "1"
serde = { version = "1", features = ["derive"] }
tokio = { version = "1", features = ["rt-multi-thread", "macros", "net", "io-util", "io-std"] }
axum = { version = "*", features = ["multipart"] }
tower-http = { version = "*", features = ["fs"] }
uuid = { version = "1", features = ["v4"] }
clap = { version = "4", features = ["derive"] }
dirs = "*"
lopdf = "*"
pdf-extract = "*"
qdrant-client = "*"
