[package]
name = "jar_analyzer"
version = "0.1.0"
edition = "2021"
publish = false

[dependencies]
jars = "*"
jbcrs = "*"
spinners = "*"
