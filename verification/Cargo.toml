[package]
name = "cryptography-x509"
version = "0.1.0"
edition = "2021"
publish = false

[dependencies]
asn1 = "0.16"
openssl = "0.10"
pyo3 = "0.21"
