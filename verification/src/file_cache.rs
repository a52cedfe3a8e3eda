//! Cache files: block alignment, the file header and the file itself.

pub mod align;
pub mod big_endian;
pub mod file;
pub mod header;
