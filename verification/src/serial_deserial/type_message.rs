//! The three message kinds of the gossip exchange.

use vstd::prelude::*;

verus! {

/// One leg of the three-way gossip handshake.
#[derive(Debug, PartialEq, Eq, Structural, Clone)]
pub enum TypeGossip {
    Syn,
    Ack,
    Ack2,
}

impl TypeGossip {
    /// The kind a wire byte denotes; unknown bytes are read as `Ack2`.
    pub fn create(n: u8) -> (r: Self)
        ensures
            n == 0x00 ==> r == TypeGossip::Syn,
            n == 0x01 ==> r == TypeGossip::Ack,
            n != 0x00 && n != 0x01 ==> r == TypeGossip::Ack2,
    {
        match n {
            0x00 => TypeGossip::Syn,
            0x01 => TypeGossip::Ack,
            _ => TypeGossip::Ack2,
        }
    }

    /// The wire byte of this kind.
    pub fn valor(&self) -> (r: u8)
        ensures
            *self == TypeGossip::Syn ==> r == 0x00,
            *self == TypeGossip::Ack ==> r == 0x01,
            *self == TypeGossip::Ack2 ==> r == 0x02,
    {
        match self {
            TypeGossip::Syn => 0x00,
            TypeGossip::Ack => 0x01,
            TypeGossip::Ack2 => 0x02,
        }
    }
}

} // verus!
