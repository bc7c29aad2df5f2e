[package]
name = "bpf-linker"
version = "0.1.0"
edition = "2021"
publish = false

[dependencies]
ar = "0.9"
gimli = "0.32"
clap = { version = "4.5", features = ["derive"] }
libloading = "0.8"
llvm-sys = { version = "201", features = ["no-llvm-linking", "disable-alltargets-init"] }
thiserror = "2"
tracing = "0.1"
tracing-appender = "0.2"
tracing-subscriber = { version = "0.3", features = ["env-filter", "registry"] }
tracing-tree = "0.4"
