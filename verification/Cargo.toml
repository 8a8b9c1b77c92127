[package]
name = "vm_map"
version = "0.1.0"
edition = "2021"
publish = false

[dependencies]
chrono = "*"
shell-escape = "*"
pdf-extract = "*"
dirs = "*"
dotenv = "*"
reqwest = { version = "*", default-features = false, features = ["blocking"] }
