[package]
name = "aleo_data"
version = "0.1.0"
edition = "2021"
publish = false

[dependencies]
snarkvm-console-algorithms = "*"
snarkvm-console-types = "*"
snarkvm-console-network-environment = "*"
snarkvm-curves = "*"
snarkvm-fields = "*"
snarkvm-utilities = "*"
