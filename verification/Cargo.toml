[package]
name = "ven_dns"
version = "0.1.0"
edition = "2021"
publish = false

[dependencies]
clap = { version = "4", features = ["derive"] }
rand = "0.9"
tokio = { version = "1", features = ["macros", "net", "rt-multi-thread"] }
