[package]
name = "dbpipe"
version = "0.1.0"
edition = "2021"
publish = false

[dependencies]
anyhow = "1"
chrono = { version = "0.4", default-features = false, features = ["std"] }
log = "0.4"
regex = "1"
sqlx = { version = "0.6", default-features = false, features = ["runtime-tokio-rustls", "any", "mysql", "chrono"] }
stderrlog = "0.5"
structopt = "0.3"
tokio = { version = "1", features = ["macros", "rt-multi-thread"] }
tokio-stream = "0.1"
url = "2"

[dev-dependencies]
csv = "1"
serde_json = "1"
