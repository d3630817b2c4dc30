[package]
name = "algos"
version = "0.1.0"
edition = "2021"
publish = false

[dependencies]
sha2 = "0.10"
serde = { version = "1", features = ["derive"] }
serde_json = "1"
rayon = "1"
tokio = { version = "1", features = ["full"] }
anyhow = "1"
thiserror = "1"
once_cell = "1"
dashmap = "5"
libc = "0.2"
bytemuck = { version = "1", features = ["derive"] }
async-recursion = "1"
tracing = "0.1"
tracing-subscriber = "0.3"
