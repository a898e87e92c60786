[package]
name = "cg2tools"
version = "0.1.0"
edition = "2021"
publish = false

[dependencies]
clap = { version = "*", features = ["derive"] }
clap_lex = "*"

[dev-dependencies]
shlex = "*"
