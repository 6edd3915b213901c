[package]
name = "beveled_paths"
version = "0.1.0"
edition = "2021"
publish = false

[dependencies]
iter_tools = "*"
log = "0.4"
pretty_env_logger = "*"
strum = "*"
strum_macros = "*"
