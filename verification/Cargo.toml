[package]
name = "dsch"
version = "0.1.0"
edition = "2021"
publish = false

[dependencies]
num-rational = "*"
num-traits = "*"
num-bigint = "*"
midly = "*"
pest = "*"
pest_derive = "*"
clap = { version = "*", features = ["derive"] }
crossterm = "*"
colonnade = "*"
rust-sugiyama = "*"
derive_more = { version = "*", features = ["from", "into"] }
