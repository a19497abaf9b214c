//! A Minecraft-style region file (a 32x32 grid of compressed world chunks
//! packed into 4096-byte sectors) exposed as an in-memory engine plus the
//! decision logic of a user-space filesystem over it.
//!
//! The crate holds the verified core: the sector-addressed region engine,
//! the compression-selector and file-name codecs, the inode table, and the
//! per-operation logic of the filesystem adapter. Mounting, kernel transport
//! and the command line live outside the library.

pub mod bits;
pub mod codec;
pub mod names;
pub mod anvil;
pub mod inode;
pub mod fs;
pub mod guard;
pub mod cli;

pub use bits::BitSet;
