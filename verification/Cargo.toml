[package]
name = "cb_backend"
version = "0.1.0"
edition = "2021"
publish = false

[dependencies]
bytemuck = { version = "1", features = ["extern_crate_alloc"] }
cubecl = { version = "*", default-features = false }
