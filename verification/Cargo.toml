[package]
name = "neutron_route_finder"
version = "0.1.0"
edition = "2021"
publish = false

[dependencies]
bincode = "2"
csv = "1"
flate2 = "1"
memmap2 = "0.9"
rayon = "1"
serde = { version = "1", features = ["derive"] }
tokio = { version = "1", features = ["macros", "rt-multi-thread"] }
