[package]
name = "concept_explorer"
version = "0.1.0"
edition = "2021"
publish = false

[dependencies]
bit-set = "=0.8.0"
console_error_panic_hook = "=0.1.7"
leptos = { version = "=0.8.22", features = ["csr"] }
leptos-use = "=0.20.0"
odis = "=2026.9.1"
wasm-bindgen-futures = "=0.4.79"
web-sys = { version = "=0.3.106", features = ["Blob", "BlobPropertyBag", "DomRect", "Element", "File", "FileList", "HtmlAnchorElement", "HtmlInputElement", "MouseEvent", "SubmitEvent", "SvgElement", "Url", "Window", "XmlSerializer"] }
