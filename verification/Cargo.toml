[package]
name = "lsm_kv_store"
version = "0.1.0"
edition = "2021"
publish = false

[dependencies]
bloomfilter = "*"
lz4_flex = "*"
lru = "*"
