[package]
name = "kiss_conformance"
version = "0.1.0"
edition = "2021"
publish = false
