[package]
name = "js_lexer"
version = "0.1.0"
edition = "2021"

[dependencies]
regex = "1"
unicode-xid = "0.2"
