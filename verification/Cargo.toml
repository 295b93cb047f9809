[package]
name = "gene_tree_sim"
version = "0.1.0"
edition = "2021"
publish = false

[dependencies]
rand = "0.8"
csv = "1"
pest = "2"
pest_derive = "2"
prettytable-rs = "0.10"
regex = "1"
time = "0.3"
