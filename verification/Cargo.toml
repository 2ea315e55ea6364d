[package]
name = "steve"
version = "0.1.0"
edition = "2021"
publish = false

[dependencies]
anyhow = "=1.0.104"
clap = { version = "=4.6.7", features = ["derive"] }
colored = "=3.1.1"
dotenv = "=0.15.0"
futures = "=0.3.34"
indicatif = "=0.18.6"
rig-core = { version = "=0.43.0", features = ["reqwest"] }
serde = { version = "=1.0.229", features = ["derive"] }
termimad = "=0.35.5"
tokio = { version = "=1.53.2", features = ["macros", "rt-multi-thread", "fs"] }
