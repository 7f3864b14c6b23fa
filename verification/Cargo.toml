[package]
name = "combat_dice"
version = "0.1.0"
edition = "2021"

[dependencies]
enum-map = "*"
