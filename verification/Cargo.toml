[package]
name = "brainfuck"
version = "0.1.0"
edition = "2021"

[dependencies]
clap = { version = "4", features = ["derive"] }
termios = "0.3"
