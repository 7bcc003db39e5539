[package]
name = "pino"
version = "0.1.0"
edition = "2021"
publish = false

[dependencies]
anyhow = "1"
chrono = "0.4"
once_cell = "1"
rand = "0.8"
regex = "1"
serenity = "0.9"
structopt = "0.3"
tokio = { version = "0.2", features = ["macros", "rt-threaded", "time"] }
