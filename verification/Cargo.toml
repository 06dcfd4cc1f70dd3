[package]
name = "tinygif"
version = "0.1.0"
edition = "2021"
publish = false

[dependencies]
embedded-graphics = "0.8"
libc = "0.2"
linked_list_allocator = "0.10"
log = "0.4"
static_cell = "2"
