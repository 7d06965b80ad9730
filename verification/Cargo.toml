[package]
name = "anime"
version = "0.1.0"
edition = "2021"
publish = false

[dependencies]
arrow = "54"
geo = "=0.29.3"
geo-types = "=0.7.20"
geoarrow = "=0.4.0-beta.4"
pyo3 = "0.23"
pyo3-arrow = "0.7"
rstar = "=0.12.2"
