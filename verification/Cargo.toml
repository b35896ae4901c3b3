[package]
name = "volume_sync"
version = "0.1.0"
edition = "2021"
publish = false

[dependencies]
chrono = "=0.4.45"
chrono-tz = "=0.10.4"
dirs = "=5.0.1"
futures-util = "=0.3.34"
image = { version = "=0.25.10", default-features = false, features = ["png"] }
md5 = "=0.7.0"
mdns-sd = "=0.11.5"
native-tls = "=0.2.18"
prost = "=0.13.5"
reqwest = { version = "=0.12.28", default-features = false, features = ["json", "multipart"] }
serde = { version = "=1.0.229", features = ["derive"] }
serde_json = "=1.0.154"
sha2 = "=0.10.9"
tokio = { version = "=1.54.1", features = ["full"] }
tokio-native-tls = "=0.3.1"
tokio-tungstenite = "=0.24.0"
tracing = "=0.1.44"
tracing-appender = "=0.2.5"
tracing-subscriber = { version = "=0.3.23", features = ["env-filter"] }
uuid = { version = "=1.29.0", features = ["v4"] }
webview2-com = "0.33"
windows = { version = "0.58", features = ["Foundation", "Foundation_Collections", "Media_SpeechSynthesis", "Storage_Streams", "Win32_Foundation", "Win32_Media_MediaFoundation", "Win32_System_Com", "Win32_UI_Shell", "Win32_UI_WindowsAndMessaging"] }
zip = { version = "=2.6.1", default-features = false }
