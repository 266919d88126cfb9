[package]
name = "polytope_quadtree"
version = "0.1.0"
edition = "2021"
publish = false

[dependencies]
geo = { version = "*", default-features = false }
pyo3 = "*"
chrono = "*"
once_cell = "*"
