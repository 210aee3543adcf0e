[package]
name = "nu_plugin_logic"
version = "0.1.0"
edition = "2021"
publish = false

[dependencies]
nu-plugin = "=0.113.1"
nu-protocol = "=0.113.1"
