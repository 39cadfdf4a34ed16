[package]
name = "scene_hook"
version = "0.1.0"
edition = "2021"
publish = false

[dependencies]
bevy_app = "0.13"
bevy_asset = "0.13"
bevy_ecs = "0.13"
bevy_hierarchy = "0.13"
bevy_log = "0.13"
bevy_reflect = "0.13"
bevy_scene = { version = "0.13", default-features = false }
