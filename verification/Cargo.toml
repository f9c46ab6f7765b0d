[package]
name = "pcm_stream"
version = "0.1.0"
edition = "2021"
publish = false

[dependencies]
wasm-bindgen = "*"
js-sys = "*"
web-sys = { version = "*", features = [
    "AudioBuffer",
    "AudioBufferSourceNode",
    "AudioContext",
    "AudioDestinationNode",
    "AudioNode",
    "BaseAudioContext",
    "BinaryType",
    "ErrorEvent",
    "Event",
    "EventTarget",
    "MessageEvent",
    "WebSocket",
] }
