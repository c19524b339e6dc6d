[package]
name = "m6parserkit"
version = "0.1.0"
edition = "2021"
publish = false

[dependencies]
string-interner = "=0.20.0"
regex = "=1.13.1"
fancy-regex = "=0.20.0"
unicode-ident = "=1.0.27"
