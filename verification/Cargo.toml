[package]
name = "pocketlab"
version = "0.1.0"
edition = "2021"
publish = false

[dependencies]
rayon = "1"
reqwest = { version = "0.12", default-features = false, features = ["blocking", "json"] }
rusqlite = { version = "0.32", features = ["bundled"] }
serde = { version = "1", features = ["derive"] }
strum = { version = "0.26", features = ["derive"] }

[dev-dependencies]
serde_json = "1"
