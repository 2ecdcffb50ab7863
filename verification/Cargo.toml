[package]
name = "cycle_fusion"
version = "0.1.0"
edition = "2021"
publish = false
