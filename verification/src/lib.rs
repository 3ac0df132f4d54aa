//! CVVC: the data formats and decisions of a Git-compatible version control tool.

pub mod cli;
pub mod config;
pub mod encoding;
pub mod helpers;
pub mod ignore;
pub mod index;
pub mod interop;
pub mod moments;
pub mod net;
pub mod numerals;
pub mod objects;
pub mod output;
pub mod ref_log;
pub mod remotes;
pub mod repo;
pub mod sorting;
pub mod stores;
pub mod text;
