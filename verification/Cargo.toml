[package]
name = "router_lab"
version = "0.1.0"
edition = "2021"
publish = false

[dependencies]
clap = { version = "*", features = ["derive"] }
http-body-util = "*"
hyper = { version = "*", features = ["client", "http1", "server"] }
hyper-util = { version = "*", features = ["tokio"] }
tokio = { version = "*", features = ["macros", "net", "rt-multi-thread", "signal", "sync", "time"] }
tracing = "*"
tracing-subscriber = "*"
