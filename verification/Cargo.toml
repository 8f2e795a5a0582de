[package]
name = "folklore"
version = "0.1.0"
edition = "2021"
publish = false

[dependencies]
bimap = "0.6"
bincode = "1"
url = "2"
select = "0.6"
serde = { version = "1", features = ["derive"] }
serde_json = "1"
toml = "*"
tokio = { version = "1", features = ["full"] }
futures = "0.3"
reqwest = "0.12"
rusqlite = "*"
r2d2 = "0.8"
r2d2_sqlite = "*"
gflags = "0.3"
lazy_static = "1"

[dev-dependencies]
regex = "1"
