[package]
name = "sierra_gas_costs"
version = "0.1.0"
edition = "2021"
publish = false

[dependencies]
cairo-lang-sierra = "=2.6.4"
