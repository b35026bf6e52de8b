[package]
name = "bif_parser"
version = "0.1.0"
edition = "2021"

[dependencies]
nom = "7"
