[package]
name = "pingmu"
version = "0.1.0"
edition = "2021"
publish = false

[dependencies]
pnet = "*"
rand = "0.8"
ipnetwork = "*"
chrono = "0.4"
clap = { version = "4", features = ["derive"] }
csv = "1"
ctrlc = "3"
log = "0.4"
log4rs = { version = "1", default-features = false, features = ["console_appender"] }
prettytable-rs = "0.10"
