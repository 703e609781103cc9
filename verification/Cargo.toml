[package]
name = "sample_ime"
version = "0.1.0"
edition = "2021"
publish = false

[dependencies]
windows = { version = "=0.52.0", features = ["Win32_UI_Input_KeyboardAndMouse", "Win32_UI_TextServices"] }
