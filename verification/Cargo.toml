[package]
name = "assets_manager"
version = "0.1.0"
edition = "2021"
publish = false

[dependencies]
rocket = { version = "0.5.1", features = ["json"] }
rocket_cors = "0.6.0"
zip = { version = "*", default-features = false, features = ["deflate"] }
filesize = "0.2.0"
dotenvy = "0.15"
