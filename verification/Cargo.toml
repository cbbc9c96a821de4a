[package]
name = "orinium_text"
version = "0.1.0"
edition = "2021"
publish = false

[dependencies]
unicode-bidi = "*"
unicode-linebreak = "*"
fontdb = "*"
fontdue = "*"
rustybuzz = "*"
lru = "*"
log = "*"
fontconfig = "*"
dwrote = "*"
winapi = { version = "*", features = ["dwrite"] }
