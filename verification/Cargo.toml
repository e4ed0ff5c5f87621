[package]
name = "hyprwindows"
version = "0.1.0"
edition = "2021"
publish = false

[dependencies]
fuzzy-matcher = "*"
abi_stable = "*"
anyrun-plugin = "*"
hyprland = "*"
ron = "*"
serde = { version = "*", features = ["derive"] }
