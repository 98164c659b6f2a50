//! The restriction clause of a parsed statement.

use vstd::prelude::*;

verus! {

/// Up to two conditions joined by a logical operator; empty strings and
/// `None` stand for an absent part.
#[derive(Debug, Clone, PartialEq)]
pub struct CondicionWhere {
    pub condicion1: String,
    pub operador_logico: Option<String>,
    pub condicion2: String,
}

impl CondicionWhere {
    /// A clause with no conditions.
    pub fn vacia() -> (r: CondicionWhere)
        ensures
            r.condicion1@ == Seq::<char>::empty(),
            r.operador_logico is None,
            r.condicion2@ == Seq::<char>::empty(),
    {
        CondicionWhere {
            condicion1: String::new(),
            operador_logico: None,
            condicion2: String::new(),
        }
    }
}

} // verus!
