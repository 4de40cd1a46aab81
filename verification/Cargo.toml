[package]
name = "ardupilot_log_parser"
version = "0.1.0"
edition = "2021"
publish = false

[dependencies]
iced = "0.14"
iced_plot = "*"
rand = "0.9"
rfd = "*"
