//! Installing a mod from an archive: recognising the archive's layout, reading
//! a FOMOD configuration, and planning which entry goes where.
pub mod archive;
pub mod decode;
pub mod document;
pub mod extract;
pub mod fomod;
pub mod heuristics;
pub mod install;
pub mod layout;
pub mod linked;
pub mod links;
pub mod lowercasing;
pub mod mappings;
pub mod parser;
pub mod paths;
pub mod registration;
pub mod scored;
pub mod types;
pub mod xml;
