[package]
name = "vector_experiments"
version = "0.1.0"
edition = "2021"
publish = false

[dependencies]
anyhow = "1"
arrow = { version = "*", default-features = false }
clap = { version = "4", features = ["derive"] }
matrixmultiply = "0.3"
parquet = { version = "*", default-features = false, features = ["arrow", "snap", "zstd"] }
rand = "0.8"
rand_distr = "0.4"
rayon = "1"
reqwest = { version = "0.12", default-features = false, features = ["blocking", "rustls-tls"] }
serde = { version = "1", features = ["derive"] }
