pub mod ben;
pub mod canonical;
pub mod client;
pub mod equal;
pub mod error;
pub mod hash;
pub mod torrent;
