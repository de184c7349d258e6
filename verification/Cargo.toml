[package]
name = "bms_chart"
version = "0.1.0"
edition = "2021"

[dependencies]
regex = "1"
encoding_rs = "0.8"
