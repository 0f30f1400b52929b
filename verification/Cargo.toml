[package]
name = "huffman"
version = "0.1.0"
edition = "2021"
publish = false

[dependencies]
bytebuffer = "0.2"
fxhash = "0.2"
