[package]
name = "esp_loader"
version = "0.1.0"
edition = "2021"
publish = false

[dependencies]
serial = "0.4"
slip-codec = "0.1"
