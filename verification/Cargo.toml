[package]
name = "django_rusty_templates"
version = "0.1.0"
edition = "2021"
publish = false

[dependencies]
unicode-xid = "=0.2.6"
miette = "=7.6.0"
thiserror = "=2.0.21"
html-escape = "=0.2.15"
num-bigint = "=0.4.8"
sugar_path = "1"
