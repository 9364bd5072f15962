[package]
name = "fluxel"
version = "0.1.0"
edition = "2021"
publish = false

[dependencies]
parry3d-f64 = "*"
nalgebra = "*"
rayon = "*"
stl_io = "*"
wavefront_obj = "*"
pyo3 = "*"
numpy = "*"
