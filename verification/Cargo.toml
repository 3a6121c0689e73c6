[package]
name = "easy_scraper"
version = "0.2.0"
edition = "2021"
publish = false

[dependencies]
kuchiki = "0.8"
