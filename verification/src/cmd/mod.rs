pub mod download;
pub mod list_parts;
pub mod parts;
pub mod stream;
pub mod tree_hash;
