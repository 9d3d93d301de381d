//! A writer for ZIP archives whose entries are stored uncompressed.
pub mod archive;
pub mod cursor;
pub mod encoding;
