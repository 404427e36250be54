[package]
name = "asterconf"
version = "0.1.0"
edition = "2021"
publish = false

[dependencies]
hex = "0.4"
sha1 = "0.10"
rand = "0.8"
tokio = { version = "1", features = ["rt-multi-thread", "macros", "net", "io-util"] }
blazing_agi = "*"
blazing_agi_macros = "*"
async-trait = "0.1"
