[package]
name = "magic_piano"
version = "0.1.0"
edition = "2021"
publish = false

[dependencies]
bit-set = "0.8"
fraction = "0.15"
itertools = "0.14"
midly = { version = "0.5", default-features = false, features = ["alloc", "std"] }
console_error_panic_hook = "0.1"
console_log = "1"
futures = "0.3"
gloo = "0.11"
js-sys = "0.3"
leptos = { version = "0.8", features = ["csr"] }
leptos-use = "0.16"
log = "0.4"
serde = { version = "1", features = ["derive"] }
serde-wasm-bindgen = "0.6"
wasm-bindgen = "0.2"
wasm-bindgen-futures = "0.4"
web-sys = { version = "0.3", features = ["AudioBuffer", "AudioBufferSourceNode", "AudioContext", "AudioDestinationNode", "AudioNode", "AudioParam", "BaseAudioContext", "Blob", "Document", "Element", "Event", "File", "FileList", "GainNode", "HtmlCollection", "HtmlDetailsElement", "HtmlDivElement", "HtmlElement", "HtmlInputElement", "HtmlSelectElement", "KeyboardEvent", "ScrollBehavior", "ScrollIntoViewOptions", "ScrollLogicalPosition", "Window"] }

[dev-dependencies]
regex = "1"
