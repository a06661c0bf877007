[package]
name = "ip_location_db_lookup"
version = "0.1.0"
edition = "2021"
publish = false

[dependencies]
argh = "*"
memmap2 = "*"
thiserror = "*"
