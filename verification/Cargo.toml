[package]
name = "parseable"
version = "0.1.0"
edition = "2021"
publish = false

[dependencies]
anyhow = "1.0"
arrow-array = "=57.3.2"
arrow-schema = "=57.3.2"
async-trait = "0.1"
chrono = "=0.4.45"
datafusion = { version = "=52.5.0", default-features = false, features = ["parquet"] }
futures-util = "0.3"
itertools = "0.14"
num_cpus = "=1.17.0"
object_store = { version = "=0.12.5", default-features = false }
parquet = { version = "=57.3.2", default-features = false, features = ["arrow"] }
serde = { version = "1", features = ["derive"] }
serde_json = "1"
serde_repr = "0.1"
tracing = "0.1"
