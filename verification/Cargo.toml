[package]
name = "dsn_router"
version = "0.1.0"
edition = "2021"
publish = false

[dependencies]
pathfinding = "*"
anyhow = "1"
argh = "*"
sexpr_parser = "*"
