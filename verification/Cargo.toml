[package]
name = "nwc"
version = "0.1.0"
edition = "2021"
publish = false

[dependencies]
regex = "1"
flate2 = "1"
serde = { version = "1", features = ["derive"] }
serde_json = "1"
chrono = "0.4"
dirs = "5"
sha2 = "0.10"
sysinfo = "0.33"
walkdir = "2"
zip = "2"
tempfile = "3"
rayon = "1"
rfd = "0.15"
