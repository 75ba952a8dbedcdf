[package]
name = "jeba"
version = "0.1.0"
edition = "2021"
publish = false

[dependencies]
reqwest = { version = "=0.13.5", default-features = false, features = ["blocking", "query"] }
toml = "=1.1.7"
log = "=0.4.34"
env_logger = "=0.11.11"
structopt = "=0.3.26"

[dev-dependencies]
serde_json = "=1.0.151"
regex = "=1.13.1"
