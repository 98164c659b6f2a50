//! A small replicated, CQL-flavoured row store.
//!
//! Nodes form a token ring, exchange membership data through a gossip
//! protocol, and execute parsed CQL statements against partition-keyed
//! tables whose rows are comma-separated strings.

pub mod bdd;
pub mod cadena;
pub mod funciones;
pub mod handler;
pub mod individual;
pub mod parser_cql;
pub mod serial_deserial;
pub mod texto;

use vstd::prelude::*;

verus! {

/// Wire value announcing quorum consistency on the client protocol.
pub const VALOR_STRONG: u16 = 0x0004;

/// Wire value announcing one-acknowledgement consistency.
pub const VALOR_WEAK: u16 = 0x0001;

} // verus!
