[package]
name = "todo_store"
version = "0.1.0"
edition = "2021"
publish = false

[dependencies]
actix-web = "*"
actix-rt = "*"
actix-cors = "*"
serde = { version = "*", features = ["derive"] }
