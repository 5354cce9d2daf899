[package]
name = "finance_manager"
version = "0.1.0"
edition = "2021"
publish = false

[dependencies]
rust_decimal = "1"
regex = "1"
rand = "0.8"
time = { version = "0.3", features = ["formatting"] }
serde = { version = "1", features = ["derive"] }
serde_json = "1"
ureq = { version = "2", features = ["json"] }
rust_xlsxwriter = "*"
