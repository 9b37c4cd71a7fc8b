[package]
name = "achievement_panel"
version = "0.1.0"
edition = "2021"
publish = false

[dependencies]
anyhow = "=1.0.104"
eframe = "=0.31.1"
steamworks = "=0.13.1"
