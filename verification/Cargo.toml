[package]
name = "bevy_descendant_collector"
version = "0.1.0"
edition = "2021"
publish = false

[dependencies]
bevy = { version = "0.16", default-features = false }
bevy_ecs = "0.16"
proc-macro2 = "1"
quote = "1"
syn = "2"
