[package]
name = "lablog_store_csv"
version = "0.1.0"
edition = "2021"
publish = false

[dependencies]
csv = "*"
walkdir = "*"
