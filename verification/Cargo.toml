[package]
name = "too"
version = "0.1.0"
edition = "2021"
publish = false

[dependencies]
compact_str = "*"
profiling = "*"
slotmap = "*"
str_indices = "*"
unicode-segmentation = "*"
unicode-width = "*"
