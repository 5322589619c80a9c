[package]
name = "cyber_toolkit"
version = "0.1.0"
edition = "2021"
publish = false

[dependencies]
shlex = "1"
reqwest = { version = "*", default-features = false }
tokio = { version = "1", features = ["macros", "rt-multi-thread"] }
dirs = "*"
clap = { version = "4", features = ["derive"] }
serde = { version = "1", features = ["derive"] }
