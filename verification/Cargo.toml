[package]
name = "egui_directory_combobox"
version = "0.1.0"
edition = "2021"
publish = false

[dependencies]
dunce = "1"
egui = { version = "0.32", default-features = false }
