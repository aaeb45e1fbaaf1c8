[package]
name = "lightctl"
version = "0.1.0"
edition = "2021"
publish = false

[dependencies]
i2cdev = "*"
actix-web = "*"
actix-cors = "*"
actix-files = "*"
bcrypt = "*"
chrono = "*"
diesel = { version = "*", features = ["sqlite", "r2d2"] }
dotenvy = "*"
env_logger = "*"
futures-util = "*"
jsonwebtoken = "*"
log = "*"
serde = { version = "*", features = ["derive"] }
serde_json = "*"
derive_more = { version = "*", features = ["display"] }
libsqlite3-sys = { version = "*", features = ["bundled"] }
