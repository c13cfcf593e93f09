[package]
name = "craftec"
version = "0.1.0"
edition = "2021"
publish = false

[dependencies]
anyhow = "1"
blake3 = "=1.8.7"
bloomfilter = "=1.0.16"
bytes = "1"
dashmap = "=6.2.1"
ed25519-dalek = { version = "=2.2.0", features = ["rand_core"] }
hex = "=0.4.3"
libsql = { version = "=0.9.30", default-features = false, features = ["core"] }
lru = "=0.16.4"
postcard = { version = "1", features = ["alloc", "use-std"] }
rand = "=0.8.8"
serde = { version = "1", features = ["derive"] }
serde_json = "1"
thiserror = "2"
tokio = { version = "1", features = ["full"] }
tracing = "0.1"
tracing-subscriber = { version = "0.3", features = ["env-filter"] }
wasmtime = { version = "=41.0.4", default-features = false, features = ["cranelift", "runtime", "std", "async"] }

[dev-dependencies]
tempfile = "3"
