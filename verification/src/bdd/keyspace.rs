//! A keyspace: a named set of tables under one replication factor.

use crate::bdd::tabla::Tabla;
use vstd::prelude::*;

verus! {

/// A keyspace holds its tables by name; names are pairwise distinct.
#[derive(Debug)]
pub struct Keyspace {
    pub nombre: String,
    pub tablas: Vec<Tabla>,
    pub nivel_replicacion: usize,
    pub strategy: String,
}

/// Table names within a keyspace are pairwise distinct.
pub open spec fn tablas_bien_formadas(tablas: Seq<Tabla>) -> bool {
    forall|i: int, j: int| 0 <= i < j < tablas.len() ==> tablas[i].nombre@ != tablas[j].nombre@
}

impl Keyspace {
    /// A keyspace with no tables yet.
    pub fn new(nombre: String, nivel_replicacion: usize, strategy: String) -> (r: Self)
        ensures
            r.nombre@ == nombre@,
            r.nivel_replicacion == nivel_replicacion,
            r.strategy@ == strategy@,
            r.tablas@.len() == 0,
            tablas_bien_formadas(r.tablas@),
    {
        Keyspace { nombre, tablas: Vec::new(), nivel_replicacion, strategy }
    }

    /// Replace the keyspace's tables wholesale.
    pub fn add_tablas(&mut self, tabla: Vec<Tabla>)
        ensures
            final(self).tablas@ == tabla@,
            final(self).nombre == old(self).nombre,
            final(self).nivel_replicacion == old(self).nivel_replicacion,
            final(self).strategy == old(self).strategy,
    {
        self.tablas = tabla;
    }
}

} // verus!
