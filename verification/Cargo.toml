[package]
name = "tantivy_analysis_contrib"
version = "0.1.0"
edition = "2021"
publish = false

[dependencies]
tantivy-tokenizer-api = "0.3"
rustc-hash = "1.1"
fst = "0.4"
rust_icu_sys = "*"
rust_icu_common = "*"
rust_icu_ubrk = "*"
rust_icu_unorm2 = "*"
rust_icu_utrans = "*"
thiserror = "1"

[dev-dependencies]
tantivy = { version = "0.22", default-features = false }
