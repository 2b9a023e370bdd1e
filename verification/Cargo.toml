[package]
name = "voice_analyzer"
version = "0.1.0"
edition = "2021"
publish = false

[dependencies]
itertools = "=0.10.5"
rubato = "=0.10.1"
irapt = "=0.2.0"
log = "=0.4.34"
