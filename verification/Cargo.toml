[package]
name = "synopsis-service"
version = "0.1.0"
edition = "2021"
publish = false

[dependencies]
actix = "*"
actix-cors = "*"
actix-web = { version = "*", default-features = false, features = ["macros"] }
env_logger = { version = "*", default-features = false }
rust-bert = { version = "*", default-features = false }
serde = { version = "1", features = ["derive"] }
text-splitter = { version = "*", features = ["tokenizers"] }
thiserror = "*"
tokenizers = "*"
