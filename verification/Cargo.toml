[package]
name = "chunk_graph"
version = "0.1.0"
edition = "2021"
publish = false

[dependencies]
indexmap = "*"
base64 = "0.21"
md5 = "0.7"
twox-hash = "1.6"
