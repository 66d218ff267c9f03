[package]
name = "lucy"
version = "0.1.0"
edition = "2021"
publish = false

[dependencies]
sha2 = "=0.10.9"
regex = "=1.13.1"
shlex = "=1.3.0"
base64 = "=0.22.1"
similar = "=2.7.0"
serde = { version = "=1.0.229", features = ["derive"] }
serde_json = "=1.0.154"
chrono = "=0.4.45"
radix_trie = "=0.2.1"
aho-corasick = "=1.1.5"
ropey = "1"
urlencoding = "2"
