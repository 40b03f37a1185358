[package]
name = "linkmm"
version = "0.1.0"
edition = "2021"
publish = false

[dependencies]
dirs = "5"
env_logger = "0.11"
libc = "0.2"
libloot = "*"
log = { version = "0.4", features = ["std"] }
quick-xml = "0.37"
serde = { version = "1", features = ["derive"] }
serde_json = "1"
sevenz-rust2 = "*"
toml = "0.8"
unrar = "0.5"
ureq = "2"
uuid = { version = "1", features = ["v4"] }
zip = { version = "2", default-features = false, features = ["deflate"] }
