//! A parsed statement.

use crate::parser_cql::condicion_where::CondicionWhere;
use crate::parser_cql::type_cql::TypeCQL;
use vstd::prelude::*;

verus! {

/// A statement after parsing: the original text, the table it touches,
/// its kind, the kind-specific payload and the restriction clause.
#[derive(Debug, Clone, PartialEq)]
pub struct Consulta {
    pub consulta_explicita: String,
    pub tabla: String,
    pub tipo: TypeCQL,
    pub query: String,
    pub condicion_where: CondicionWhere,
}

impl Consulta {
    /// The statement exactly as the client wrote it.
    pub fn get_consulta_explicita(&self) -> (r: &str)
        ensures
            r@ == self.consulta_explicita@,
    {
        self.consulta_explicita.as_str()
    }

    /// The table the statement addresses.
    pub fn get_tabla(&self) -> (r: &str)
        ensures
            r@ == self.tabla@,
    {
        self.tabla.as_str()
    }

    /// The statement kind.
    pub fn get_type(&self) -> (r: &TypeCQL)
        ensures
            *r == self.tipo,
    {
        &self.tipo
    }

    /// The kind-specific payload.
    pub fn get_query(&self) -> (r: &str)
        ensures
            r@ == self.query@,
    {
        self.query.as_str()
    }

    /// The restriction clause.
    pub fn get_where(&self) -> (r: &CondicionWhere)
        ensures
            *r == self.condicion_where,
    {
        &self.condicion_where
    }
}

} // verus!
