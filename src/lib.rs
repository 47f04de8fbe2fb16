//! An in-memory key-value cache speaking a small subset of a line-oriented,
//! length-prefixed request protocol: frame decoding, an expiring store, the
//! command interpreter and the per-connection decisions of the server loop.
use vstd::prelude::*;

pub mod codec;
pub mod store;
pub mod command;
pub mod server;

verus! {

} // verus!
