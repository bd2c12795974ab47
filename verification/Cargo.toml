[package]
name = "software-manager"
version = "0.1.0"
edition = "2021"
publish = false

[dependencies]
egui = "0.29"
walkdir = "2"
winreg = "0.52"
