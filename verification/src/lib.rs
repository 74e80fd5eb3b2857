//! Section resolution and image post-processing for the Firmion linker:
//! the ESP image checksum extension and the object-file section resolver.

pub mod text;
pub mod esp_checksum;
pub mod lma;
pub mod order;
pub mod objparse;
pub mod glob;
pub mod sections;
pub mod objfile;
