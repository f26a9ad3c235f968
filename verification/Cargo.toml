[package]
name = "parallel_merge_sort"
version = "0.1.0"
edition = "2021"
publish = false

[dependencies]
lazy_static = "1"
