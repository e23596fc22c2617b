[package]
name = "npcs_ai_game"
version = "0.1.0"
edition = "2021"
publish = false

[dependencies]
bevy = { version = "=0.9.1", default-features = false, features = ["bevy_asset", "bevy_core_pipeline", "bevy_render", "bevy_sprite"] }
bevy_asset_loader = { version = "=0.14.1", features = ["stageless", "progress_tracking", "progress_tracking_stageless"] }
bevy_ecs_ldtk = "=0.5.0"
bevy_rapier2d = "=0.19.0"
iyes_loopless = "=0.9.1"
iyes_progress = { version = "=0.7.1", features = ["iyes_loopless"] }
