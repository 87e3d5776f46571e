[package]
name = "lite_edit_editor"
version = "0.1.0"
edition = "2021"
publish = false

[dependencies]
notify = "*"
objc2-app-kit = "*"
objc2-foundation = "*"
