[package]
name = "nll"
version = "0.1.0"
edition = "2021"
publish = false

[dependencies]
lalrpop-intern = "*"
lalrpop-util = "*"
docopt = "1"
serde = { version = "1", features = ["derive"] }
lazy_static = "1"
