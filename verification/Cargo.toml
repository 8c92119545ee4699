[package]
name = "merge_grid"
version = "0.1.0"
edition = "2021"
publish = false

[dependencies]
bevy = { version = "=0.5.0", default-features = false, features = ["bevy_winit", "render", "bevy_wgpu", "x11"] }
itertools = "=0.10.5"
rand = "=0.8.8"
# bevy's derive crates lean on syn's "full" feature without asking for it;
# the releases of this crate that still build on syn 1 ask for it.
tracing-attributes = "<0.1.22"
