//! A small content-addressed version control core: object encoding,
//! trees, the index, refs, commits, configuration and pack files.
pub mod error;
pub mod text;
pub mod strmap;
pub mod index;
pub mod codec;
pub mod object;
pub mod tree;
pub mod status;
pub mod commit;
pub mod config;
pub mod pack;
pub mod inflater;
pub mod remote;
pub mod diff;
pub mod commands;
pub mod report;
