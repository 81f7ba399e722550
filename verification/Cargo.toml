[package]
name = "symtool"
version = "0.1.0"
edition = "2021"
publish = false

[dependencies]
object = "=0.39.1"
rustc-demangle = "=0.1.28"
aho-corasick = "=1.1.5"
memmap2 = "=0.9.11"
anyhow = "=1.0.104"
argh = "=0.1.19"
rustyline = "=18.0.1"
capstone = "=0.14.0"
bstr = "=1.13.1"
rayon = "=1.12.0"
