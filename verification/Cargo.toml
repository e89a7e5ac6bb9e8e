[package]
name = "slab_allocator"
version = "0.1.0"
edition = "2021"
publish = false

[dependencies]
spin = { version = "0.9", default-features = false, features = ["mutex", "spin_mutex"] }
linked_list_allocator = { version = "0.10", default-features = false }
