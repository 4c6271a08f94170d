[package]
name = "pair"
version = "0.1.0"
edition = "2021"
publish = false

[dependencies]
anyhow = "1"
block2 = "*"
clap = { version = "4", features = ["derive"] }
cpal = "*"
dispatch2 = "*"
objc2 = "*"
objc2-app-kit = "*"
objc2-av-foundation = "*"
objc2-core-audio-types = "*"
objc2-core-foundation = "*"
objc2-core-graphics = "*"
objc2-core-media = "*"
objc2-core-video = "*"
objc2-foundation = "*"
objc2-screen-capture-kit = "*"
objc2-video-toolbox = "*"
