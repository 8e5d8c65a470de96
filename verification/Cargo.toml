[package]
name = "mrkle"
version = "0.1.0"
edition = "2021"
publish = false

[dependencies]
sha1 = "*"
sha2 = "*"
sha3 = "*"
blake2 = "*"
hex = "*"
serde = { version = "*", features = ["derive"] }
serde_json = "*"
serde_cbor = "*"
text_trees = "*"
