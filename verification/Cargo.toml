[package]
name = "account_balance_calculator"
version = "0.1.0"
edition = "2021"
publish = false

[dependencies]
clap = { version = "=4.6.7", features = ["derive"] }
num_cpus = "=1.17.0"
tokio = { version = "=1.53.2", features = ["fs", "io-std", "io-util", "macros", "rt-multi-thread", "sync"] }
