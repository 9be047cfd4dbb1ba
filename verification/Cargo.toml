[package]
name = "buddy_system_allocator"
version = "0.1.0"
edition = "2021"
publish = false

[dependencies]
spin = "0.9"
