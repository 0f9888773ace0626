[package]
name = "doxygen2man"
version = "0.1.0"
edition = "2021"
publish = false

[dependencies]
xml-rs = "0.8"
chrono = "0.4"
structopt = "0.3"
