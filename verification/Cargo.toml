[package]
name = "logo"
version = "0.1.0"
edition = "2021"
publish = false

[dependencies]
clap = "2"
rustyline = "6"
turtle = "1.0.0-rc.3"

[dev-dependencies]
regex = "1"
