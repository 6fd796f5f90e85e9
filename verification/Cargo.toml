[package]
name = "celtic_names"
version = "0.1.0"
edition = "2021"
publish = false

[dependencies]
rand = "*"
markov = "*"
scraper = "*"
ureq = "*"
clap = "*"
dont_disappear = "*"
