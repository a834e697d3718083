[package]
name = "mdcache"
version = "0.1.0"
edition = "2021"
publish = false

[dependencies]
pulldown-cmark = "*"
sha2 = "*"
notify-debouncer-mini = "*"
crossbeam-channel = "*"
