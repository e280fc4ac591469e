[package]
name = "mimir-core"
version = "0.1.0"
edition = "2021"
publish = false

[dependencies]
blake3 = "1"
directories = "*"
fastembed = { version = "5", default-features = false, features = ["hf-hub"] }
hf-hub = { version = "0.4", default-features = false, features = ["ureq"] }
ignore = "0.4"
ort = { version = "2.0.0-rc.9", default-features = false }
pulldown-cmark = { version = "*", default-features = false }
rusqlite = { version = "*", features = ["bundled"] }
serde = { version = "1", features = ["derive"] }
serde_json = "1"
thiserror = "2"
toml = "*"
tracing = "0.1"
ulid = "1"
