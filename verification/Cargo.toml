[package]
name = "markov_notes"
version = "0.1.0"
edition = "2021"
publish = false

[dependencies]
rand = "*"
serde = { version = "*", features = ["derive"] }
serde_json = "*"
lindera-core = "*"
lindera-dictionary = "*"
lindera-tokenizer = { version = "*", features = ["ipadic"] }
