[package]
name = "proxy_board"
version = "0.1.0"
edition = "2021"
publish = false

[dependencies]
serde = { version = "*", features = ["derive"] }
reqwest = { version = "*", default-features = false, features = ["blocking", "json"] }
ratatui = "*"
crossterm = "*"
chrono = "*"
humanize-duration = "*"
bytesize = "*"
