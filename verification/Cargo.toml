[package]
name = "oximedia"
version = "0.1.0"
edition = "2021"
publish = false

[dependencies]
ab_glyph = "0.2"
fontdue = "0.9"
serde = { version = "1", features = ["derive"] }
thiserror = "1"
