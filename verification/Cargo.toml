[package]
name = "rtz"
version = "0.1.0"
edition = "2021"
publish = false

[dependencies]
anyhow = "1"
bincode = "2"
chashmap = "2"
clap = { version = "4", features = ["derive"] }
geo = "*"
geojson = "*"
rayon = "1"
serde_json = "1"
zip = { version = "*", default-features = false, features = ["deflate"] }
