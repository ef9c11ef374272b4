[package]
name = "org-roam-sync"
version = "0.1.0"
edition = "2021"
publish = false

[dependencies]
emacs = "*"
org-element = "*"
rayon = "1"
regex = "1"
rusqlite = { version = "*", features = ["bundled"] }
sha1 = "0.10"
walkdir = "2"
