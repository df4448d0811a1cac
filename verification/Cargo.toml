[package]
name = "kamai"
version = "0.1.0"
edition = "2021"

[dependencies]
codespan-reporting = "0.11"
logos = "0.12"
