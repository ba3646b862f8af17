[package]
name = "mdchat"
version = "0.1.0"
edition = "2021"
publish = false

[dependencies]
pulldown-cmark = { version = "0.9", default-features = false }
syntect = { version = "5", default-features = false, features = ["default-fancy"] }
reqwest = { version = "0.11", default-features = false, features = ["json"] }
tokio = { version = "1", features = ["rt-multi-thread", "macros"] }
rustyline = "12"
colored = "2"
clearscreen = "2"
dirs = "5"
dotenv = "0.15"
serde = { version = "1", features = ["derive"] }
terminal_size = "0.3"
thiserror = "1"
