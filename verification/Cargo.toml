[package]
name = "gha_executor"
version = "0.1.0"
edition = "2021"
publish = false

[dependencies]
anyhow = "1"
oxc_allocator = "0.112"
oxc_codegen = "0.112"
oxc_parser = "0.112"
oxc_semantic = "0.112"
oxc_span = "0.112"
oxc_transformer = "0.112"
rquickjs = "0.14"
