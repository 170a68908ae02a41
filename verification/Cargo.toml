[package]
name = "llm-multimodal"
version = "0.1.0"
edition = "2021"
publish = false

[dependencies]
serde_json = "1"
