[package]
name = "clash_verge_service"
version = "0.1.0"
edition = "2021"
publish = false

[dependencies]
anyhow = "1"
once_cell = "1"
parking_lot = "0.12"
sysinfo = "0.30"
interfaces = "0.0.9"
windows-service = "0.7"
