[package]
name = "rover_planner"
version = "0.1.0"
edition = "2021"
publish = false

[dependencies]
priority-queue = "1.3"
