//! The membership states a peer can be in.

use vstd::prelude::*;

verus! {

/// A peer is joining, serving, or unreachable.
#[derive(Debug, PartialEq, Eq, Structural, Clone, Copy)]
pub enum NodeStatus {
    Bootstrap,
    Normal,
    Down,
}

impl NodeStatus {
    /// The state a digest word denotes; every unknown word is read as `Down`.
    pub fn create(estado: &str) -> (r: Self)
        ensures
            estado@ == "Bootstrap"@ ==> r == NodeStatus::Bootstrap,
            estado@ == "Normal"@ ==> r == NodeStatus::Normal,
            estado@ != "Bootstrap"@ && estado@ != "Normal"@ ==> r == NodeStatus::Down,
    {
        proof {
            reveal_strlit("Bootstrap");
            reveal_strlit("Normal");
            assert("Bootstrap"@.len() == 9);
            assert("Normal"@.len() == 6);
            assert("Bootstrap"@ != "Normal"@);
        }
        if cadenas_iguales(estado, "Bootstrap") {
            NodeStatus::Bootstrap
        } else if cadenas_iguales(estado, "Normal") {
            NodeStatus::Normal
        } else {
            NodeStatus::Down
        }
    }

    /// The digest word of this state.
    pub fn texto(&self) -> (r: &'static str)
        ensures
            r@ == espec_texto_estado(*self),
    {
        match self {
            NodeStatus::Bootstrap => "Bootstrap",
            NodeStatus::Normal => "Normal",
            NodeStatus::Down => "Down",
        }
    }
}

/// The digest word of a state.
pub open spec fn espec_texto_estado(e: NodeStatus) -> Seq<char> {
    match e {
        NodeStatus::Bootstrap => "Bootstrap"@,
        NodeStatus::Normal => "Normal"@,
        NodeStatus::Down => "Down"@,
    }
}

/// Relies on str's PartialEq: two string slices compare equal exactly
/// when they hold the same characters.
#[verifier::external_body]
pub fn cadenas_iguales(a: &str, b: &str) -> (r: bool)
    ensures
        r == (a@ == b@),
{
    a == b
}

} // verus!
