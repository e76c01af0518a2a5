[package]
name = "codec_pipeline"
version = "0.1.0"
edition = "2021"
publish = false

[dependencies]
zarrs = { version = "*", default-features = false, features = ["filesystem", "gzip", "crc32c"] }
serde_json = "*"
rayon = "*"
rayon_iter_concurrent_limit = "*"
