//! Caching layer for BitTorrent tracker announces.
//!
//! The crate models a per-info-hash peer directory with two indices, a
//! reference-counted per-key lock registry, a bounded admission counter for
//! upstream connections, and the double-checked fetch flow that coordinates
//! them.  Byte-level codecs cover the compact peer formats, bencode, and the
//! on-disk directory snapshot.

pub mod addr;
pub mod admission;
pub mod bencode;
pub mod bstr;
pub mod directory;
pub mod errors;
pub mod fetch;
pub mod fingerprint;
pub mod origin;
pub mod registry;
pub mod store;
pub mod torrent;
pub mod tracker;
