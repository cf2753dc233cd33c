[package]
name = "pgp_armor"
version = "0.1.0"
edition = "2021"
publish = false

[dependencies]
combine = "=4.6.9"
nom = "=7.1.3"
