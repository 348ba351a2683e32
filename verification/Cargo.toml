[package]
name = "cpu"
version = "0.1.0"
edition = "2021"

[dependencies]
cpuid = "=0.1.1"
