[package]
name = "pet_cli"
version = "0.1.0"
edition = "2021"
publish = false

[dependencies]
rand = "0.7"
chrono = "0.4"
crossterm = "0.25"
tui = { version = "0.19", default-features = false, features = ["crossterm"] }

[dev-dependencies]
serde_json = "1"
