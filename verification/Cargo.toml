[package]
name = "wiki_cli"
version = "0.1.0"
edition = "2021"
publish = false

[dependencies]
colored = "*"
html2text = "*"
urlencoding = "*"
textwrap = "*"
terminal_size = "*"
serde = { version = "1", features = ["derive"] }
clap = { version = "4", features = ["derive"] }
tokio = { version = "1", features = ["rt-multi-thread", "macros"] }
reqwest = { version = "*", default-features = false, features = ["json", "rustls-tls"] }
