[package]
name = "gps_average"
version = "0.1.0"
edition = "2021"
publish = false

[dependencies]
anyhow = "=1.0.104"
clap = { version = "=4.6.7", features = ["derive"] }
colored = "=3.1.1"
glam = "=0.34.1"
map_3d = "=0.1.7"
nmea = "=0.8.0"
