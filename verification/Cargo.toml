[package]
name = "pipes_broker"
version = "0.1.0"
edition = "2021"
publish = false

[dependencies]
chrono = "0.4"
uuid = { version = "1", features = ["v4"] }
tokio = { version = "1", features = ["macros", "rt-multi-thread", "net", "io-util"] }
tonic = "0.12"
prost = "0.13"
prost-types = "0.13"
