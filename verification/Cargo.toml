[package]
name = "rusty_awa"
version = "0.1.0"
edition = "2021"
publish = false

[dependencies]
bitbuffer = "*"
num-traits = "*"
thiserror = "*"
fallible-iterator = "*"
parking_lot = "*"
clap = { version = "*", features = ["derive"] }
ratatui = { version = "*", features = ["unstable-widget-ref"] }
tui-input = "*"
customasm = "*"
