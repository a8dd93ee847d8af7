[package]
name = "binder_clip"
version = "0.1.0"
edition = "2021"
publish = false

[dependencies]
glium = "0.32"
imgui = "0.11"
imgui-glium-renderer = "0.11"
imgui-winit-support = "0.11"
winit = "0.27"

[dev-dependencies]
textwrap = { version = "0.16", default-features = false }
