[package]
name = "blackhole_universe"
version = "0.1.0"
edition = "2021"
publish = false

[dependencies]
bevy = { version = "=0.17.3", default-features = false, features = ["std", "bevy_ui", "bevy_ui_render", "bevy_sprite_render", "bevy_mesh_picking_backend", "bevy_window", "bevy_input_focus", "bevy_text", "bevy_log"] }
rand = "0.9"
rand_distr = "0.5"
