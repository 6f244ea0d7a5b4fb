[package]
name = "exprtree"
version = "0.1.0"
edition = "2021"
publish = false
