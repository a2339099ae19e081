[package]
name = "ruggit"
version = "0.1.0"
edition = "2021"
publish = false

[dependencies]
age = "*"
anyhow = "*"
git2 = { version = "*", default-features = false }
reqwest = { version = "*", default-features = false, features = ["json"] }
serde = { version = "*", features = ["derive"] }
serde_json = "*"
termion = "*"
tokio = { version = "*", features = ["macros", "rt-multi-thread"] }
