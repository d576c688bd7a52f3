[package]
name = "corridor_join"
version = "0.1.0"
edition = "2021"
publish = false

[dependencies]
anyhow = "=1.0.104"
fs-err = "=3.3.2"
geo = "=0.33.1"
geojson = "=1.0.0"
indicatif = "=0.18.6"
rstar = "=0.12.2"
serde = { version = "=1.0.229", features = ["derive"] }
serde_json = "=1.0.154"
