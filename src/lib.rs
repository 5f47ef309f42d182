//! A small text chat protocol: packets of typed fields with a reversible text form, the
//! messages that clients and the server exchange, the command line of a client, and the
//! server's registry and dispatcher, written as steps that a connection loop performs.
use vstd::prelude::*;

pub mod client;
pub mod dispatch;
pub mod kind;
pub mod number;
pub mod packet;
pub mod registry;
pub mod server;
pub mod syntax;
pub mod text;
pub mod value;

verus! {

/// Identifies a connected client; assigned in increasing order, never reused.
pub type ClientId = i128;

} // verus!
