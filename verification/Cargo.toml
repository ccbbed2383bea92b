[package]
name = "clinvoice"
version = "0.1.0"
edition = "2021"
publish = false

[dependencies]
atty = "0.2"
chrono = "0.4"
clap = { version = "4", features = ["derive"] }
colored = "2"
fs2 = "0.4"
num-traits = "0.2"
serde = { version = "1", features = ["derive"] }
tera = "1"
term_size = "0.3"
toml = "0.8"
tracing = "0.1"
tracing-subscriber = { version = "0.3", features = ["env-filter"] }
