//! Downloading files and mirroring websites: everything that is decided or computed between
//! the requests.
//!
//! The crate reads the command line's options, names and places the files, paces transfers,
//! finds the links of pages and style sheets, keeps the queue of a crawl, and rewrites links
//! for offline viewing. Requests, files, the clock and the terminal are left to the program
//! around it.

pub mod cli;
pub mod convert;
pub mod crawl_laws;
pub mod decimal;
pub mod downloader;
pub mod error;
pub mod link_laws;
pub mod links;
pub mod logger;
pub mod mirror;
pub mod mirror_laws;
pub mod number_laws;
pub mod path_laws;
pub mod paths;
pub mod progress;
pub mod relative;
pub mod rewrite_laws;
pub mod text;
pub mod text_laws;
pub mod weburl;
