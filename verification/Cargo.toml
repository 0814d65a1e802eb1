[package]
name = "reclutch"
version = "0.1.0"
edition = "2021"
publish = false

[dependencies]
slotmap = "=1.1.1"
retain_mut = "=0.1.9"
euclid = "=0.22.14"
palette = "=0.7.7"
crossbeam-channel = "=0.5.17"
futures-core = "=0.3.34"
thiserror = "=1.0.69"
paste = "=1.0.15"
font-kit = "=0.14.3"
linked-hash-map = "0.5"
