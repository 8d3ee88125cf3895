[package]
name = "cfb-forensic"
version = "0.2.1"
edition = "2021"
publish = false

[dependencies]
forensicnomicon = "1"
cfb = "0.14"
