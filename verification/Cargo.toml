[package]
name = "ikigai-log"
version = "0.1.0"
edition = "2021"
publish = false

[dependencies]
async-trait = "0.1"
ikigai-core = "*"
ikigai-sign = "*"
oxrdf = "*"
oxrdfio = "*"
serde = { version = "1", features = ["derive"] }
sha2 = "0.10"
toml = "*"

[dev-dependencies]
futures = "0.3"
