[package]
name = "rust_browser"
version = "0.1.0"
edition = "2021"
publish = false

[dependencies]
clap = "2"
printpdf = "0.3"
