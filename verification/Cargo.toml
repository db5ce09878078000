[package]
name = "quotation_align"
version = "0.1.0"
edition = "2021"
publish = false

[dependencies]
anyhow = "1"
deunicode = "1"
float_next_after = "1"
glob = "0.3"
once_cell = "1"
ordered-float = "4"
pathfinding = "4"
rayon = "1"
regex = "1"
serde = { version = "1", features = ["derive"] }
serde_json = "1"
triple_accel = "0.4"
