//! Views of `.npz` archives: the zip layout of their uncompressed `.npy` members
//! and the CRC-32 checksums that guard them.

pub mod archive;
pub mod bytes;
pub mod checksum;
pub mod error;
pub mod laws;
pub mod layout;
pub mod strings;
pub mod view;
pub mod view_mut;
