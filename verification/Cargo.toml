[package]
name = "savings_ledger"
version = "0.1.0"
edition = "2021"
publish = false

[dependencies]
chrono = "0.4"
humantime = "2"
structopt = "0.3"
clap = "2"
dialoguer = "*"
tokio = { version = "1", features = ["macros", "rt-multi-thread"] }
futures = "0.3"
reqwest = { version = "0.11", default-features = false, features = ["json"] }
serde = { version = "1", features = ["derive"] }
prettytable-rs = "*"
plotters = "0.2"
tempfile = "3"
webbrowser = "*"
float-ord = "*"
