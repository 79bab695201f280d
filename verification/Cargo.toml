[package]
name = "substance"
version = "0.1.0"
edition = "2021"
publish = false

[dependencies]
binfarce = "*"
camino = "*"
memmap2 = "*"
pdb = "*"
pico-args = "*"
rayon = "*"
tempfile = "*"
term_size = "*"
ignore = "*"
owo-colors = "*"
facet = "*"
facet-json = "*"
