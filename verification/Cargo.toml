[package]
name = "lark"
version = "0.1.0"
edition = "2021"
publish = false

[dependencies]
codespan = "*"
generational-arena = "0.2"
indexmap = "2"
lalrpop-util = { version = "0.16", default-features = false }
rustc-hash = "2"
unicode-xid = "0.2"
