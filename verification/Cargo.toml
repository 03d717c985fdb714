[package]
name = "worktree"
version = "0.1.0"
edition = "2021"
publish = false

[dependencies]
anyhow = "1.0"
futures = "0.3"
ignore = "0.4"
log = "0.4"
parking_lot = "0.11"
postage = { version = "0.5", features = ["futures-traits"] }
smol = "1.2"
