[package]
name = "proddle"
version = "0.1.0"
edition = "2021"
publish = false

[dependencies]
bson = "=2.15.0"
capnp = "=0.27.2"
capnp-rpc = "=0.27.1"
clap = "=4.6.7"
env_logger = "=0.11.11"
futures = "=0.3.34"
log = "=0.4.34"
mongodb = { version = "=3.9.1", features = ["sync"] }
threadpool = "=1.8.1"
time = "=0.1.45"
tokio = { version = "=1.54.1", features = ["net", "rt"] }
tokio-util = { version = "=0.7.20", features = ["compat"] }
