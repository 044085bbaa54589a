[package]
name = "qwen3_tts"
version = "0.1.0"
edition = "2021"
publish = false

[dependencies]
audioadapter-buffers = "2"
half = "2"
memmap2 = "0.9"
rand = "0.8"
rubato = "1"
safetensors = "0.7"
serde_json = "1"
tokenizers = { version = "0.22", default-features = false, features = ["fancy-regex"] }
windows-sys = { version = "0.61", features = ["Win32_Foundation", "Win32_System_Threading"] }
