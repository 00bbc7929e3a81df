[package]
name = "arena_dom"
version = "0.1.0"
edition = "2021"
publish = false

[dependencies]
markup5ever = "=0.11.0"
generational-indextree = "*"
