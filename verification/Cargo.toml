[package]
name = "exect_core"
version = "0.1.0"
edition = "2021"
publish = false

[dependencies]
inventory = "0.3"
postcard = { version = "1", default-features = false, features = ["use-std"] }
proc-macro2 = "1"
quote = "1"
serde = { version = "1", features = ["derive"] }
syn = { version = "2", features = ["full"] }
thiserror = "2"
