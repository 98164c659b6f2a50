//! The statement kinds the parser recognises.

use vstd::prelude::*;

verus! {

/// Kind of a parsed statement.
#[derive(Debug, Clone, PartialEq, Eq, Structural)]
pub enum TypeCQL {
    Select,
    Insert,
    Update,
    Delete,
    CreateTable,
    CreateKeyspace,
}

impl TypeCQL {
    /// The keyword this kind answers to.
    pub fn texto(&self) -> (r: &'static str)
        ensures
            *self == TypeCQL::Select ==> r@ == "SELECT"@,
            *self == TypeCQL::Insert ==> r@ == "INSERT"@,
            *self == TypeCQL::Update ==> r@ == "UPDATE"@,
            *self == TypeCQL::Delete ==> r@ == "DELETE"@,
            *self == TypeCQL::CreateTable ==> r@ == "CREATE TABLE"@,
            *self == TypeCQL::CreateKeyspace ==> r@ == "CREATE KEYSPACE"@,
    {
        match self {
            TypeCQL::Select => "SELECT",
            TypeCQL::Insert => "INSERT",
            TypeCQL::Update => "UPDATE",
            TypeCQL::Delete => "DELETE",
            TypeCQL::CreateTable => "CREATE TABLE",
            TypeCQL::CreateKeyspace => "CREATE KEYSPACE",
        }
    }
}

} // verus!
