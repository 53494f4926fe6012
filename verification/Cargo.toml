[package]
name = "cfgzip"
version = "0.1.0"
edition = "2021"
publish = false

[dependencies]
regex = "1"
regex-automata = "0.4"
anyhow = "1"
clap = { version = "4", features = ["derive", "env"] }
hf-hub = "0.4"
indicatif = "0.17"
rayon = "1"
serde_json = "1"
serde_bytes = "0.11"
serde-pickle = "1"
tokenizers = "0.22"
zip = { version = "2", default-features = false }
