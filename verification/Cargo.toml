[package]
name = "ai_tournament"
version = "0.1.0"
edition = "2021"
publish = false

[dependencies]
anyhow = "=1.0.104"
cgroups-rs = "=0.5.1"
num_cpus = "=1.17.0"
sysinfo = "=0.39.6"
time = { version = "=0.3.55", features = ["formatting", "local-offset"] }
tracing = "=0.1.44"
tracing-subscriber = { version = "=0.3.23", features = ["time"] }
