//! The two consistency levels a statement can ask for.

use vstd::prelude::*;

verus! {

/// Quorum (`Strong`) or a single acknowledgement (`Weak`).
#[derive(Debug, PartialEq, Eq, Structural, Clone)]
pub enum LevelConsistency {
    Strong,
    Weak,
}

impl LevelConsistency {
    /// The level a wire value denotes; every value other than the quorum
    /// mark is read as `Weak`.
    pub fn create(n: u16) -> (r: Self)
        ensures
            r == LevelConsistency::Strong <==> n == 0x0004,
    {
        match n {
            0x0004 => LevelConsistency::Strong,
            _ => LevelConsistency::Weak,
        }
    }

    /// The wire value of this level.
    pub fn valor(&self) -> (r: u16)
        ensures
            *self == LevelConsistency::Strong ==> r == 0x0004,
            *self == LevelConsistency::Weak ==> r == 0x0001,
    {
        match self {
            LevelConsistency::Strong => 0x0004,
            LevelConsistency::Weak => 0x0001,
        }
    }
}

} // verus!
