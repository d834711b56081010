[package]
name = "skytraxx_updater"
version = "0.1.0"
edition = "2021"
publish = false

[dependencies]
futures-util = "*"
reqwest = { version = "*", default-features = false, features = ["stream"] }
serde = { version = "*", features = ["derive"] }
sysinfo = "*"
tar = "*"
