[package]
name = "llama_infer"
version = "0.1.0"
edition = "2021"
publish = false

[dependencies]
rand = "=0.8.8"
safetensors = "0.4"
serde_json = "1"
tokenizers = "=0.19.1"
