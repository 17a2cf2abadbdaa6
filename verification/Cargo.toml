[package]
name = "redwood_wiki"
version = "0.1.0"
edition = "2021"
publish = false

[dependencies]
regex = "=1.13.1"
syntect = "=5.3.0"
chrono = "=0.4.45"
fern = "=0.7.1"
log = "=0.4.34"
pulldown-cmark = "=0.13.4"
rusqlite = { version = "=0.40.2", features = ["bundled"] }
serde = { version = "=1.0.229", features = ["derive"] }
tokio = { version = "=1.53.2", features = ["macros", "rt", "sync"] }
toml = "=1.1.7"
warp = { version = "=0.4.3", features = ["server"] }
