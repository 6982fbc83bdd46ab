[package]
name = "national_day_wallpaper"
version = "0.1.0"
edition = "2021"
publish = false

[dependencies]
chrono = "0.4"
image = "0.24"
imageproc = "0.23"
rand = "0.8"
rusttype = "0.9"
wallpaper = "3"
