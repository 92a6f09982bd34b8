//! Inspection of the entries of a JAR/ZIP archive: enumeration in central
//! directory order, content lookup by name, and an ignore policy that decides
//! which entries a listing shows.

pub mod pattern;
pub mod archive;
pub mod settings;
