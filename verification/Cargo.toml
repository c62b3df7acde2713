[package]
name = "hecs_world"
version = "0.1.0"
edition = "2021"
publish = false

[dependencies]
hashbrown = { version = "0.14", default-features = false, features = ["ahash", "inline-more"] }
spin = { version = "0.9", default-features = false, features = ["mutex", "spin_mutex"] }
