[package]
name = "tb_ecs"
version = "0.1.0"
edition = "2021"
publish = false

[dependencies]
bimap = "*"
dynamic_reload = "*"
hibitset = "*"
serde = { version = "*", features = ["derive"] }
serde_json = "*"
thread-pool = "*"
