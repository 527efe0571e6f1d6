[package]
name = "typack"
version = "0.1.0"
edition = "2021"
publish = false

[dependencies]
cow-utils = "=0.1.3"
oxc_syntax = "=0.143.0"
oxc_allocator = "=0.143.0"
oxc_ast = "=0.143.0"
oxc_ast_visit = "=0.143.0"
oxc_codegen = "=0.143.0"
oxc_diagnostics = "=0.143.0"
oxc_parser = "=0.143.0"
oxc_semantic = "=0.143.0"
oxc_sourcemap = "*"
oxc_span = "=0.143.0"
oxc_index = "*"
oxc_resolver = "=11.24.3"
rustc-hash = "=2.1.3"
bpaf = { version = "=0.9.28", features = ["derive"] }
serde = { version = "=1.0.229", features = ["derive"] }
serde_json = "=1.0.154"
