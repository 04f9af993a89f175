[package]
name = "wraft"
version = "0.1.0"
edition = "2021"
publish = false

[dependencies]
async-trait = "0.1"
base64 = "0.13"
bincode = "1.3"
console_error_panic_hook = "0.1"
futures = "0.3"
http = "0.2"
js-sys = "0.3"
rand = "0.8"
serde = { version = "1", features = ["derive"] }
serde_json = "1"
strum = "0.21"
strum_macros = "0.21"
tokio = { version = "1", features = ["full"] }
tokio-tungstenite = "0.15"
wasm-bindgen = "0.2"
wasm-bindgen-futures = "0.4"
web-sys = { version = "0.3", features = ["BinaryType", "Document", "Event", "EventTarget", "HtmlElement", "HtmlInputElement", "Location", "MessageEvent", "Performance", "RtcDataChannel", "RtcDataChannelEvent", "RtcDataChannelState", "RtcDataChannelType", "RtcIceCandidate", "RtcIceCandidateInit", "RtcPeerConnection", "RtcPeerConnectionIceEvent", "RtcSdpType", "RtcSessionDescriptionInit", "Storage", "WebSocket", "Window"] }
wee_alloc = "0.4"
yew = "0.18"
yew-router = "0.15"
