[package]
name = "onnxruntime-mlx"
version = "0.1.0"
edition = "2021"
publish = false

[dependencies]
log = "=0.4.35"
onnx-runtime-ir = "=0.1.0-dev.6"
onnx-runtime-tracer = "=0.1.0-dev.6"
serde_json = "=1.0.154"
