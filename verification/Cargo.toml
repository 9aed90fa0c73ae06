[package]
name = "foxy_ircd"
version = "0.1.0"
edition = "2021"
publish = false

[dependencies]
tokio = { version = "1", features = ["rt", "rt-multi-thread", "net", "io-util", "fs", "sync", "time"] }
serde_json = "1"
ctrlc = "3"
getopts = "0.2"
num_cpus = "1"
