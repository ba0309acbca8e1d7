[package]
name = "photoframe"
version = "0.1.0"
edition = "2021"
publish = false

[dependencies]
sha1 = "*"
log = "*"
serde_json = "*"
simple_logger = "*"
reqwest = { version = "*", default-features = false }
tokio = { version = "*", features = ["macros", "rt-multi-thread", "time"] }
zip = { version = "*", default-features = false, features = ["deflate"] }
