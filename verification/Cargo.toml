[package]
name = "lethal_potato"
version = "0.1.0"
edition = "2021"
publish = false

[dependencies]
chrono = "*"
clap = { version = "*", features = ["derive"] }
comfy-table = "*"
console = "*"
crossbeam = "*"
reqwest = { version = "*", default-features = false, features = ["blocking"] }

[dev-dependencies]
serde_json = "*"
