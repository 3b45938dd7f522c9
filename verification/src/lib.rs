//! Inventory of the package archives waiting in a remote "incoming" tree.
//!
//! The crate holds the decisions of a crawl-and-cache engine: how one listing
//! entry becomes a submission record, how a depth-bounded walk over the remote
//! tree proceeds from one remote answer to the next request, and when a cached
//! snapshot is served or refreshed. Network and clock access stay with the
//! caller, which performs each requested action and reports what came back.

pub mod cache;
pub mod capture;
pub mod config;
pub mod links;
pub mod listing;
pub mod package;
pub mod service;
pub mod snapshot;
pub mod time;
