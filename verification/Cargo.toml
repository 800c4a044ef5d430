[package]
name = "mdview"
version = "1.0.0"
edition = "2021"
publish = false

[dependencies]
unicode-segmentation = "1"
unicode-width = "0.2"
unicode-casefold = "0.2"
syntect = { version = "5", default-features = false, features = ["default-fancy"] }
crossterm = "0.28"
ratatui = "0.29"
libc = "0.2"
