[package]
name = "broust"
version = "0.1.0"
edition = "2021"
publish = false

[dependencies]
html-escape = "0.2"
macroquad = "0.4"
native-tls = "0.2"
