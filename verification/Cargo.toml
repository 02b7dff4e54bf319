[package]
name = "sf_winmd_gen"
version = "0.1.0"
edition = "2021"
publish = false

[dependencies]
windows-metadata = "0.100.0"
windows-rdl = "0.100.0"
windows-clang = "0.100.0"
windows-default = "0.100.0"
