[package]
name = "holidays"
version = "0.1.0"
edition = "2021"
publish = false

[dependencies]
phf = "0.11"
phf_shared = "0.11"
phf_generator = "0.11"
chrono = { version = "0.4", default-features = false, features = ["std", "clock"] }
time = "0.3"
