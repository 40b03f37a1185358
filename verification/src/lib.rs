//! The decision logic of a Linux mod manager for Bethesda games.
//!
//! Everything here works on plain values: archive listings, file names,
//! configuration text, bytes that were already read.  Reading directories,
//! extracting archives, spawning processes and talking to the network is left
//! to the application built on top.
pub mod archive;
pub mod config;
pub mod deployment;
pub mod download;
pub mod download_state;
pub mod games;
pub mod generated_outputs;
pub mod installer;
pub mod launch;
pub mod logger;
pub mod mods;
pub mod nexus;
pub mod number;
pub mod nxm;
pub mod paths;
pub mod plugins;
pub mod runtime;
pub mod runtime_scan;
pub mod steam;
pub mod table;
pub mod text;
pub mod vdf;
