[package]
name = "truck_brep"
version = "0.1.0"
edition = "2021"
publish = false

[dependencies]
serde = { version = "1", features = ["derive"] }
spade = "1.8"
truck-base = "*"
truck-geotrait = "*"
