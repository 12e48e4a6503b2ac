[package]
name = "full_pivoting"
version = "0.1.0"
edition = "2021"
publish = false

[dependencies]
bytemuck = "1"
dyn-stack = "*"
num-complex = "0.4"
num-traits = "0.2"
pulp = "*"

[dev-dependencies]
rand = "0.8"
