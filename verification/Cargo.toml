[package]
name = "catalog_mirror"
version = "0.1.0"
edition = "2021"
publish = false

[dependencies]
rocksdb = { version = "*", default-features = false }
rdkafka = "*"

[dev-dependencies]
tempfile = "*"
