[package]
name = "bevy_mod_spatial_query"
version = "0.1.0"
edition = "2021"
publish = false

[dependencies]
bevy = { version = "=0.18.1", default-features = false, features = ["std", "async_executor", "multi_threaded", "bevy_gizmos", "bevy_color"] }
log = "=0.4.34"

[dev-dependencies]
turborand = "=0.10.1"
