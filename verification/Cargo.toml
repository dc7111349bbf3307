[package]
name = "testdiff"
version = "0.1.0"
edition = "2021"
publish = false

[dependencies]
anyhow = "=1.0.104"
camino = "=1.2.6"
clap = { version = "=4.6.7", features = ["derive"] }
get-size2 = "=0.10.1"
ignore = "=0.4.33"
once_cell = "=1.21.4"
pathdiff = "=0.2.3"
regex = "=1.13.1"
roxmltree = "=0.21.1"
ruff_python_ast = "=0.0.5"
ruff_python_parser = "=0.0.5"
shellexpand = "=3.1.2"
