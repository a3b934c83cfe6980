[package]
name = "grizol"
version = "0.1.0"
edition = "2021"
publish = false

[dependencies]
chrono = "=0.4.45"
chrono-timesource = "=0.1.0"
clap = { version = "=4.6.7", features = ["derive"] }
dashmap = "=5.5.3"
data-encoding = "=2.11.1"
env_logger = "=0.11.11"
fuser = { version = "0.15", default-features = false }
futures = "=0.3.34"
libc = "=0.2.191"
log = "=0.4.35"
lz4_flex = "=0.11.6"
parse-size = "=1.1.0"
prost = "=0.12.6"
prost-reflect = { version = "=0.12.0", features = ["text-format"] }
regex = "=1.13.1"
rustls = { version = "=0.21.12", features = ["dangerous_configuration"] }
rustls-pemfile = "=1.0.4"
sha2 = "=0.10.9"
sqlx = { version = "=0.7.4", features = ["runtime-tokio", "sqlite"] }
tokio = { version = "=1.54.1", features = ["full"] }
tokio-rustls = "=0.24.1"
