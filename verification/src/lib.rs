//! Finding git repositories by their directory name: matching a query
//! against repository paths, ordering and listing them, tab-completion
//! candidates, the on-disk index format, the crawl's prune list, where the
//! search root and the index live, and what the command line asks for.

pub mod cache;
pub mod command;
pub mod locations;
pub mod order;
pub mod path;
pub mod prune;
pub mod repos;
pub mod text;
