//! A virtual file system in one file: deduplicated, compressed and, with a password, sealed.
//!
//! This crate holds the logic of such a vault and of the programs around it. It reads and writes
//! nothing itself: what has to be written is handed out, and what was read is handed in.

pub mod bytes;
pub mod cache;
pub mod catalog;
pub mod chunking;
pub mod clock;
pub mod console;
pub mod crypto;
pub mod desktop;
pub mod error;
pub mod header;
pub mod mount;
pub mod naming;
pub mod order;
pub mod paths;
pub mod pipeline;
pub mod sorted;
pub mod sums;
pub mod text;
pub mod uri;
pub mod vault;
