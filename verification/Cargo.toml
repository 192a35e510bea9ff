[package]
name = "webmetro"
version = "0.1.0"
edition = "2021"
publish = false

[dependencies]
bytes = "1"
clap = "4"
futures = "0.3"
hyper = "0.14"
tokio = { version = "1", features = ["rt-multi-thread", "macros"] }
warp = "0.3"
weak-table = "*"
