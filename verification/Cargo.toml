[package]
name = "filebrowser"
version = "0.1.0"
edition = "2021"
publish = false

[dependencies]
js-sys = "0.3"
wasm-bindgen = "0.2"
wasm-bindgen-futures = "0.4"
web-sys = { version = "0.3", features = ["File", "FileSystemDirectoryHandle", "FileSystemFileHandle", "FileSystemHandle", "FileSystemHandleKind", "FileSystemWritableFileStream", "Window", "console"] }
