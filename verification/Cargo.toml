[package]
name = "avy_terrain"
version = "0.1.0"
edition = "2021"
publish = false

[dependencies]
clap = { version = "4", features = ["derive"] }
contour = "*"
dotenvy = "*"
gdal = "*"
geo = "*"
geo-types = "*"
geojson = "*"
reqwest = { version = "0.12", default-features = false, features = ["blocking", "rustls-tls"] }
tempfile = "*"
