use vstd::prelude::*;

pub mod event_set;
pub mod connection;
pub mod table;
pub mod server;

verus! {

} // verus!
