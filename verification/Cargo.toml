[package]
name = "constraint_evaluation_generator"
version = "0.1.0"
edition = "2021"
publish = false

[dependencies]
anyhow = "1"
get-size = { version = "0.1.4", features = ["derive"] }
itertools = "0.13.0"
prettyplease = "0.2"
proc-macro2 = "1"
quote = "1"
serde = { version = "1", features = ["derive"] }
syn = { version = "2", features = ["full"] }
twenty-first = "0.41.0"
