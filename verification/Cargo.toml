[package]
name = "pdf_lexer"
version = "0.1.0"
edition = "2021"

[dependencies]
flate2 = "1"
