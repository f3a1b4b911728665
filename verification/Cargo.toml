[package]
name = "lina_core"
version = "0.1.0"
edition = "2021"
publish = false

[dependencies]
sha2 = "0.10"
serde = { version = "1", features = ["derive"] }
serde_json = "1"
thiserror = "1"
rusqlite = { version = "0.31", features = ["bundled"] }
libc = "0.2"
tracing = "0.1"
uuid = { version = "1", features = ["v7"] }
