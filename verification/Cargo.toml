[package]
name = "intrusive_collections_dyn"
version = "0.1.0"
edition = "2021"
publish = false

[dependencies]
intrusive-collections = "*"
