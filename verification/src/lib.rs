//! Byte-range bookkeeping, download planning, audio packets and credentials of a Spotify
//! client.

pub mod range;
pub mod range_set;

pub mod download;
pub mod receiver;
pub mod stream;

pub mod audio;
pub mod authentication;

mod bytes_be;
mod crypto;
mod text;
