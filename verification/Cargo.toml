[package]
name = "accomplishment_tracker"
version = "0.1.0"
edition = "2021"
publish = false

[dependencies]
pulldown-cmark = "*"
chrono = "0.4"
toml = "*"
serde = "1"
serde_derive = "1"
clap = { version = "4", features = ["derive"] }
bytes = "1"
wasm-bindgen = "*"
js-sys = "*"
reqwest-wasm = { version = "*", default-features = false }
web-sys = { version = "*", features = ["Window", "Document", "Element", "HtmlElement", "Node", "EventTarget", "HtmlCollection", "HtmlDivElement", "HtmlInputElement", "HtmlFontElement", "HtmlParagraphElement", "HtmlBrElement", "HtmlAnchorElement", "HtmlTableCellElement", "HtmlTableElement", "HtmlTableRowElement", "HtmlOptionElement", "HtmlSelectElement", "HtmlButtonElement", "HtmlCanvasElement"] }
