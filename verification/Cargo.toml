[package]
name = "agent_engine"
version = "0.1.0"
edition = "2021"
publish = false

[dependencies]
priority-queue = "1.3"
rand = "0.8"
csv = "1.1"
num_cpus = "1.13"
rayon = "1.5"
