[package]
name = "gtk_icon_debloat"
version = "1.0.0"
edition = "2021"
publish = false

[dependencies]
chrono = "0.4"
clap = "3"
fern = "0.6"
log = "0.4"
