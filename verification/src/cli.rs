//! What the commands of the program do to a repository, and what they print.

pub mod branches;
pub mod commit_laws;
pub mod fetch;
pub mod fetch_laws;
pub mod fetch_maps;
pub mod listing;
pub mod listing_laws;
pub mod log;
pub mod log_laws;
pub mod staging;
pub mod tags;
pub mod tree_listing;
