[package]
name = "mooncake_table"
version = "0.1.0"
edition = "2021"
publish = false

[dependencies]
arrow = "*"
arrow-array = "*"
futures = "*"
iceberg = "*"
parquet = "*"
tempfile = "*"
tracing = "*"
