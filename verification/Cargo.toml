[package]
name = "marker_graph"
version = "0.1.0"
edition = "2021"
publish = false

[dependencies]
itertools = "=0.14.0"
petgraph = "=0.8.3"
rustc-hash = "=2.1.3"
uv-normalize = "=0.0.40"
uv-pep508 = "=0.0.40"
uv-pypi-types = "=0.0.40"
