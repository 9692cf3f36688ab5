[package]
name = "organ"
version = "0.1.0"
edition = "2021"
publish = false

[dependencies]
alsa = "=0.11.0"
bitmaps = "=3.2.1"
cpal = { version = "=0.18.2", features = ["jack"] }
dasp_sample = "=0.11.0"
hidapi = { version = "=2.6.7", default-features = false, features = ["linux-native-basic-udev"] }
hound = "=3.5.1"
libc = "=0.2.191"
oneshot = { version = "=0.2.1", features = ["std"] }
pipewire = "=0.10.1"
rayon = "=1.12.0"
riff = "=2.0.0"
scheduled_channel = "=0.1.1"
serde = { version = "=1.0.229", features = ["derive"] }
toml = "=1.1.8"
