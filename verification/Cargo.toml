[package]
name = "hash_trie"
version = "0.1.0"
edition = "2021"
publish = false

[dependencies]
adapton = "0.3"
rand = "0.3"
time = "0.1"
