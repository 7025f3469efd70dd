[package]
name = "md"
version = "0.1.0"
edition = "2021"
publish = false

[dependencies]
glam = { version = "*", features = ["serde"] }
serde = { version = "1", features = ["derive"] }
serde_json = "1"
polars = { version = "*", default-features = false, features = ["parquet"] }
itertools = "*"
rayon = "*"
rand = "*"
rand_distr = "*"
