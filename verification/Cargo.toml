[package]
name = "rusty_kv"
version = "0.1.0"
edition = "2021"

[dependencies]
linked_hash_set = "0.1"
