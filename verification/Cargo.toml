[package]
name = "delay_time_calculator"
version = "0.1.0"
edition = "2021"
publish = false

[dependencies]
arboard = "3"
iced = { version = "0.13", default-features = false, features = ["tiny-skia"] }

[dev-dependencies]
delay_times = "*"
round = "*"
tap_tempo = "*"
