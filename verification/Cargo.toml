[package]
name = "nimby_graph"
version = "0.1.0"
edition = "2021"
publish = false

[dependencies]
bitflags = "2"
chrono = "0.4"
csv = "1"
petgraph = "0.6"
quick-xml = { version = "0.36", features = ["serialize"] }
rand = "0.8"
rmp-serde = "1"
serde = { version = "1", features = ["derive"] }
serde_json = "1"
uuid = { version = "1", features = ["v4"] }
