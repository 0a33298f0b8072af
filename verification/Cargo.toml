[package]
name = "sshc"
version = "0.1.0"
edition = "2021"
publish = false

[dependencies]
whoami = "=1.6.1"
clap = "=4.6.7"
shellexpand = "=3.1.2"
