[package]
name = "ical_filter"
version = "0.1.0"
edition = "2021"
publish = false

[dependencies]
anyhow = "=1.0.104"
argh = "=0.1.19"
chrono = "=0.4.45"
csv = "=1.4.0"
ical = { version = "=0.11.0", features = ["generator"] }
regex = "=1.13.1"
