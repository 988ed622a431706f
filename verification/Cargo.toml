[package]
name = "seren_prosemirror"
version = "0.1.0"
edition = "2021"
publish = false

[dependencies]
pulldown-cmark = "*"
serde_json = "1"
thiserror = "*"
uuid = "1"
