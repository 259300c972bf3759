use vstd::prelude::*;

pub mod folders;
pub mod paths;
pub mod xid;
pub mod models;
pub mod store;
pub mod indexing;
pub mod walker;
pub mod watcher;
pub mod listing;
pub mod security;
pub mod errors;
pub mod config;

verus! {

} // verus!
