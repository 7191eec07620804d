[package]
name = "guildbot"
version = "0.1.0"
edition = "2021"
publish = false

[dependencies]
async-trait = "=0.1.92"
chrono = "=0.4.45"
dotenv = "=0.15.0"
poise = "=0.6.2"
regex = "=1.13.1"
serenity = "=0.12.5"
tokio = { version = "=1.54.1", features = ["full"] }
tracing = "=0.1.44"
tracing-subscriber = "=0.3.23"
ts3 = "=0.3.3"
