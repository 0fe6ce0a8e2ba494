[package]
name = "geosphere_engine"
version = "0.1.0"
edition = "2021"
publish = false

[dependencies]
anyhow = "1"
glam = { version = "0.30", features = ["serde"] }
image = { version = "0.25", default-features = false, features = ["png"] }
itertools = "0.14"
log = "0.4"
postcard = { version = "1", features = ["alloc"] }
rapidhash = "*"
renet = "1"
renet_netcode = "1"
serde = { version = "1", features = ["derive"] }
snap = "1"
tinyvec = { version = "1", features = ["serde", "alloc"] }
tokio = { version = "1", features = ["rt", "time"] }
ustr = { version = "1", features = ["serde"] }
