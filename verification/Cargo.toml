[package]
name = "calculator"
version = "0.1.0"
edition = "2021"
publish = false

[dependencies]
chrono = "=0.4.45"
once_cell = "=1.21.4"
slint = { version = "1", default-features = false, features = ["std", "compat-1-2"] }
winreg = "=0.56.0"
