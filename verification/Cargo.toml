[package]
name = "isbfc"
version = "0.1.0"
edition = "2021"
publish = false

[dependencies]
unicode-width = "0.1"
clap = "3"
cranelift = "0.100"
cranelift-codegen = "0.100"
cranelift-control = "0.100"
cranelift-jit = "0.100"
cranelift-module = "0.100"
target-lexicon = "0.12"
static_assertions = "1"
