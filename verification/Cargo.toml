[package]
name = "jj_workspace_store"
version = "0.1.0"
edition = "2021"
publish = false

[dependencies]
async-trait = "=0.1.92"
dunce = "=1.0.5"
prost = "=0.14.4"
tempfile = "=3.27.0"
thiserror = "=2.0.21"
