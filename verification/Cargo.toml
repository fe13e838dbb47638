[package]
name = "anon_lexer"
version = "0.1.0"
edition = "2021"
publish = false

[dependencies]
string-interner = "*"
pest = "2"
pest_derive = "2"
