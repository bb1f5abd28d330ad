[package]
name = "laravel_keys"
version = "0.1.0"
edition = "2021"
publish = false

[dependencies]
bumpalo = "=3.20.3"
mago-database = "=1.20.1"
mago-php-version = "=1.20.1"
mago-span = "=1.20.1"
mago-syntax = "=1.20.1"
mago-text-edit = "=1.20.1"
tower-lsp = "=0.20.0"
