[package]
name = "karma"
version = "0.1.0"
edition = "2021"
publish = false

[dependencies]
async-trait = "=0.1.92"
axum = { version = "=0.8.9", default-features = false, features = ["json", "tokio", "http1"] }
futures = { version = "=0.3.34", default-features = false, features = ["std"] }
object_store = { version = "=0.13.2", default-features = false, features = ["aws"] }
prost = { version = "0.14", default-features = false }
reqwest = { version = "=0.12.28", default-features = false, features = ["json"] }
serde = { version = "=1.0.229", features = ["derive"] }
serde_json = { version = "=1.0.154", features = ["preserve_order"] }
thiserror = "=2.0.21"
tokio = { version = "=1.54.1", default-features = false, features = ["rt-multi-thread", "macros", "net"] }
twox-hash = { version = "=2.1.5", default-features = false, features = ["xxhash64"] }
