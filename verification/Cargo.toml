[package]
name = "pdf_core"
version = "0.1.0"
edition = "2021"
publish = false

[dependencies]
sha2 = "=0.10.9"
aes = "=0.8.4"
cbc = "=0.1.2"
p12 = "=0.6.3"
serde = { version = "=1.0.229", features = ["derive"] }
serde_json = "=1.0.154"
thiserror = "=1.0.69"
flate2 = "1"
image = { version = "0.25", default-features = false, features = ["png", "jpeg"] }
cms = { version = "0.2", features = ["builder"] }
der = "0.7"
x509-cert = "0.2"
spki = "0.7"
const-oid = { version = "0.9", features = ["db"] }
rsa = { version = "0.9", features = ["sha2"] }
ttf-parser = "0.24"
