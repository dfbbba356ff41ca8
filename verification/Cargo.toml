[package]
name = "wotw_logic_map"
version = "0.1.0"
edition = "2021"
publish = false

[dependencies]
regex = "=1.13.1"
wotw_seedgen = "=0.2.1"
wasm-bindgen = "=0.2.129"
js-sys = "=0.3.106"
console_error_panic_hook = "=0.1.7"
wasm_bindgen_helper_macros = "=0.0.4"
