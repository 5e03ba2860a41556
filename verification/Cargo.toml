[package]
name = "alias_to_sieve"
version = "0.1.0"
edition = "2021"
publish = false

[dependencies]
email-address-parser = "*"
fqdn = "*"
