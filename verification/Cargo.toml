[package]
name = "printer_discovery"
version = "0.1.0"
edition = "2021"
publish = false

[dependencies]
scraper = "*"
reqwest = { version = "*", default-features = false, features = ["blocking"] }
snmp = "*"
serde = { version = "*", features = ["derive"] }
serde_json = "*"
