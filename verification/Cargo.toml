[package]
name = "decycle"
version = "0.1.0"
edition = "2021"
publish = false

[dependencies]
ahash = "=0.8.12"
camino = "=1.2.6"
dunce = "=1.0.5"
fixedbitset = "=0.5.7"
hashbrown = "=0.17.1"
indexmap = "=2.14.2"
oxc_allocator = "=0.141.0"
oxc_ast = "=0.141.0"
oxc_ast_visit = "=0.141.0"
oxc_diagnostics = "=0.141.0"
oxc_parser = "=0.141.0"
oxc_resolver = "=11.24.3"
oxc_span = "=0.141.0"
pathdiff = "=0.2.3"
petgraph = "=0.8.3"
rayon = "=1.12.0"
rustc-hash = "=2.1.3"
serde_json = "=1.0.154"
smallvec = "=1.16.4"
thread_local = "=1.1.10"
