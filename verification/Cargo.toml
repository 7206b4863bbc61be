[package]
name = "aozoraepub3_to_azw3"
version = "0.1.0"
edition = "2021"
publish = false

[dependencies]
image = { version = "=0.25.10", default-features = false, features = ["jpeg", "png"] }
quick-xml = "=0.37.5"
thiserror = "=2.0.21"
zip = { version = "=9.2.2", default-features = false, features = ["deflate"] }
