//! Package archive engine: symlink-safe packing of directory trees into zip
//! archives, integrity checksums embedded in the archive, and bulk rewriting of
//! the records that a package's objects hold.

pub mod archive;
pub mod bulk_update;
pub mod checksum;
pub mod cli;
pub mod error;
pub mod objects;
pub mod packer;
pub mod record;
pub mod text;
pub mod zip_manipulation;
