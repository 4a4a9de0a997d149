[package]
name = "sparkling_router"
version = "0.1.0"
edition = "2021"
publish = false

[dependencies]
routx = "*"
num_cpus = "1"
uuid = { version = "1", features = ["v4"] }
serde = { version = "1", features = ["derive"] }
serde_json = "1"
thiserror = "1"
xml-rs = "0.8"
rstar = "0.12"
rustc-hash = "1"
bincode = "1"
log = "0.4"
osmpbf = "*"
neon = "1"
parking_lot = "0.12"
tokio = { version = "1", features = ["rt-multi-thread", "macros", "time", "net", "sync"] }
axum = "0.7"
ureq = { version = "2", default-features = false }
reqwest = { version = "0.12", default-features = false, features = ["blocking"] }
