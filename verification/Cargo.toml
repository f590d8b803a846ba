[package]
name = "digivoter"
version = "0.1.0"
edition = "2021"
publish = false

[dependencies]
ic-stable-structures = "=0.5.6"
candid = "=0.9.11"
ic-cdk = "=0.10.2"
ic-cdk-timers = "=0.4.1"
sha2 = "=0.10.9"
