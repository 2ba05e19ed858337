[package]
name = "sum_btc"
version = "0.1.0"
edition = "2021"
publish = false

[dependencies]
bitcoin = "=0.32.102"
bitcoincore-rpc = "=0.19.0"
chrono = "=0.4.45"
futures = "=0.3.34"
grovedb = "=3.1.0"
grovedb-version = "=3.1.0"
tokio = { version = "=1.54.1", features = ["rt-multi-thread", "macros"] }
tokio-stream = "=0.1.19"
