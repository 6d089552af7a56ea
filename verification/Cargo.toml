[package]
name = "node_merge"
version = "0.1.0"
edition = "2021"
publish = false

[dependencies]
nalgebra-sparse = "*"
nalgebra = "*"
bevy_ecs = "*"
derive_more = { version = "*", features = ["deref", "deref_mut"] }
