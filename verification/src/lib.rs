//! Verified core of a World of Warcraft data inspector: `.build.info`
//! tables, ListFiles, BLP and DBC/DB2 headers, asset identification and the
//! virtual file tree of a CASC storage.
pub mod blp;
pub mod build_info;
pub mod bytes;
pub mod casc;
pub mod commands;
pub mod db2;
pub mod inspector;
pub mod installs;
pub mod listfile;
pub mod number;
pub mod order;
pub mod text;
pub mod types;
