//! Remote workspaces over SSH, and the `terax` command that drives the app from
//! a terminal: all that is decided or computed there, with proofs.
//!
//! What the library cannot do itself, such as reaching a host or reading a
//! file, it asks for: an operation hands out a request together with the state
//! that takes the reply, until it is over.
use vstd::prelude::*;

pub mod cli;
pub mod connect;
pub mod files;
pub mod folders;
pub mod grep;
pub mod inputsource;
pub mod json;
pub mod listing;
pub mod manager;
pub mod numbers;
pub mod paths;
pub mod pattern;
pub mod pins;
pub mod remote;
pub mod removal;
pub mod search;
pub mod server;
pub mod shell;
pub mod sort;
pub mod survey;
pub mod table;
pub mod terminal;
pub mod text;
pub mod walk;

verus! {

} // verus!
