[package]
name = "dfhash"
version = "0.1.0"
edition = "2021"
publish = false

[dependencies]
anyhow = "1"
clap = { version = "4", features = ["derive"] }
hex = "0.4"
polars = { version = "0.50", default-features = false, features = ["lazy", "csv", "parquet", "decompress"] }
sha2 = "0.10"
