[package]
name = "pdf_merger_lig"
version = "0.1.0"
edition = "2021"
publish = false

[dependencies]
lopdf = "*"
rayon = "*"
chrono = "*"
