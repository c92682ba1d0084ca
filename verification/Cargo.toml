[package]
name = "turing_machine"
version = "0.1.0"
edition = "2021"
publish = false

[dependencies]
serde = { version = "1", features = ["derive"] }
serde_yaml = "0.9"
gtk = "0.18"
gio = "0.18"
pango = "0.18"
