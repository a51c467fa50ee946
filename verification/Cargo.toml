[package]
name = "team_trial_tracker"
version = "0.1.0"
edition = "2021"
publish = false

[dependencies]
chrono = "=0.4.45"
image = { version = "=0.25.10", default-features = false, features = ["png", "jpeg", "webp", "bmp", "gif", "tiff"] }
imageproc = "=0.25.1"
ocrs = "=0.13.1"
palette = "=0.7.7"
regex = "=1.13.1"
rten = "=0.26.0"
rten-imageproc = "=0.26.0"
serde_json = "=1.0.154"
strsim = "=0.11.1"
tesseract = "=0.15.2"
