[package]
name = "htot_conv"
version = "0.1.0"
edition = "2021"
publish = false

[dependencies]
rust_xlsxwriter = "=0.99.1"
anyhow = "=1.0.104"
clap = { version = "=4.6.7", features = ["derive"] }
glob = "=0.3.4"
html5ever = "=0.39.0"
markup5ever_rcdom = "=0.39.0"
quick-xml = "=0.42.0"
regex = "=1.13.1"
thiserror = "=2.0.21"
