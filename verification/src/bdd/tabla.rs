//! The partition-keyed row store of one table.
//!
//! A row is its comma-joined field values in header order; the partition
//! key of a row is its first field.  Rows live in the bucket of the key
//! under which they were inserted.

use crate::cadena::{cadena_de_chars, chars_de_cadena};
use crate::parser_cql::condicion_where::CondicionWhere;
use crate::texto::{
    comparar_lex, dividir, dividir_texto, entero_acotado, es_natural, lema_dividir_no_vacio,
    lex_menor, parsear_entero, parsear_natural, recortar, recortar_texto, sin_estos, subvec,
    textos_iguales, unir, unir_texto, valor_decimal, valor_entero, quitar_caracteres,
};
use vstd::prelude::*;

verus! {

/// One partition: a key and the rows inserted under it.
#[derive(Debug)]
pub struct Particion {
    pub clave: String,
    pub filas: Vec<String>,
}

/// A table: its name, its column names, and its partitions.
#[derive(Debug)]
pub struct Tabla {
    pub nombre: String,
    pub headers: Vec<String>,
    pub datos: Vec<Particion>,
}

/// The comma-separated cells of a row.
pub open spec fn celdas(fila: Seq<char>) -> Seq<Seq<char>> {
    dividir(fila, seq![','])
}

/// All rows of all partitions, in store order.
pub open spec fn filas_planas(datos: Seq<Particion>) -> Seq<Seq<char>>
    decreases datos.len(),
{
    if datos.len() == 0 {
        Seq::empty()
    } else {
        datos[0].filas.deep_view() + filas_planas(datos.drop_first())
    }
}

/// Partition keys are pairwise distinct.
pub open spec fn bien_formada(datos: Seq<Particion>) -> bool {
    forall|i: int, j: int|
        0 <= i < j < datos.len() ==> datos[i].clave@ != datos[j].clave@
}

/// Index of the partition keyed `k`, or -1.
pub open spec fn indice_particion(datos: Seq<Particion>, k: Seq<char>) -> int
    decreases datos.len(),
{
    if datos.len() == 0 {
        -1
    } else if datos[0].clave@ == k {
        0
    } else {
        let r = indice_particion(datos.drop_first(), k);
        if r < 0 {
            -1
        } else {
            1 + r
        }
    }
}

pub proof fn lema_indice_particion(datos: Seq<Particion>, k: Seq<char>)
    ensures
        indice_particion(datos, k) == -1 ==> forall|i: int|
            0 <= i < datos.len() ==> datos[i].clave@ != k,
        indice_particion(datos, k) >= 0 ==> {
            &&& indice_particion(datos, k) < datos.len()
            &&& datos[indice_particion(datos, k)].clave@ == k
            &&& forall|i: int| 0 <= i < indice_particion(datos, k) ==> datos[i].clave@ != k
        },
    decreases datos.len(),
{
    if datos.len() > 0 && datos[0].clave@ != k {
        lema_indice_particion(datos.drop_first(), k);
        let r = indice_particion(datos.drop_first(), k);
        if r < 0 {
            assert forall|i: int| 0 <= i < datos.len() implies datos[i].clave@ != k by {
                if i >= 1 {
                    assert(datos.drop_first()[i - 1] == datos[i]);
                }
            }
        } else {
            assert(datos.drop_first()[r] == datos[r + 1]);
            assert forall|i: int| 0 <= i < r + 1 implies datos[i].clave@ != k by {
                if i >= 1 {
                    assert(datos.drop_first()[i - 1] == datos[i]);
                }
            }
        }
    }
}

/// First index in `filas` of a row whose cell `idx` equals `obj`, or -1.
/// A row with no cell `idx` never matches.
pub open spec fn primera_fila_coincidente(filas: Seq<Seq<char>>, idx: int, obj: Seq<char>) -> int
    decreases filas.len(),
{
    if filas.len() == 0 {
        -1
    } else if celdas(filas[0]).len() > idx && celdas(filas[0])[idx] == obj {
        0
    } else {
        let r = primera_fila_coincidente(filas.drop_first(), idx, obj);
        if r < 0 {
            -1
        } else {
            1 + r
        }
    }
}

/// How many rows of `filas` have cell `idx` equal to `obj`.
pub open spec fn cuenta_coincidencias(filas: Seq<Seq<char>>, idx: int, obj: Seq<char>) -> int
    decreases filas.len(),
{
    if filas.len() == 0 {
        0
    } else {
        (if celdas(filas[0]).len() > idx && celdas(filas[0])[idx] == obj {
            1int
        } else {
            0int
        }) + cuenta_coincidencias(filas.drop_first(), idx, obj)
    }
}

pub proof fn lema_primera_fila(filas: Seq<Seq<char>>, idx: int, obj: Seq<char>)
    ensures
        primera_fila_coincidente(filas, idx, obj) == -1 ==> cuenta_coincidencias(filas, idx, obj)
            == 0,
        primera_fila_coincidente(filas, idx, obj) == -1 ==> forall|i: int|
            0 <= i < filas.len() ==> !(celdas(#[trigger] filas[i]).len() > idx && celdas(
                filas[i],
            )[idx] == obj),
        primera_fila_coincidente(filas, idx, obj) >= 0 ==> {
            &&& primera_fila_coincidente(filas, idx, obj) < filas.len()
            &&& celdas(filas[primera_fila_coincidente(filas, idx, obj)]).len() > idx
            &&& celdas(filas[primera_fila_coincidente(filas, idx, obj)])[idx] == obj
            &&& forall|i: int|
                0 <= i < primera_fila_coincidente(filas, idx, obj) ==> !(celdas(
                    #[trigger] filas[i],
                ).len() > idx && celdas(filas[i])[idx] == obj)
        },
    decreases filas.len(),
{
    if filas.len() > 0 && !(celdas(filas[0]).len() > idx && celdas(filas[0])[idx] == obj) {
        lema_primera_fila(filas.drop_first(), idx, obj);
        let r = primera_fila_coincidente(filas.drop_first(), idx, obj);
        if r < 0 {
            assert forall|i: int|
                0 <= i < filas.len() implies !(celdas(#[trigger] filas[i]).len() > idx && celdas(
                filas[i],
            )[idx] == obj) by {
                if i >= 1 {
                    assert(filas.drop_first()[i - 1] == filas[i]);
                }
            }
        }
        if r >= 0 {
            assert forall|i: int| 0 <= i < r + 1 implies !(celdas(#[trigger] filas[i]).len() > idx
                && celdas(filas[i])[idx] == obj) by {
                if i > 0 {
                    assert(filas.drop_first()[i - 1] == filas[i]);
                }
            }
        }
    }
}

/// Removing the first match from a partition that held at most one match
/// leaves no matching row: the delete is complete.
pub proof fn lema_eliminar_agota(filas: Seq<Seq<char>>, idx: int, obj: Seq<char>)
    requires
        cuenta_coincidencias(filas, idx, obj) <= 1,
    ensures
        primera_fila_coincidente(filas, idx, obj) >= 0 ==> cuenta_coincidencias(
            filas.remove(primera_fila_coincidente(filas, idx, obj)),
            idx,
            obj,
        ) == 0,
        primera_fila_coincidente(filas, idx, obj) < 0 ==> cuenta_coincidencias(filas, idx, obj)
            == 0,
    decreases filas.len(),
{
    lema_primera_fila(filas, idx, obj);
    let j = primera_fila_coincidente(filas, idx, obj);
    if j == 0 {
        assert(filas.remove(0) =~= filas.drop_first());
        lema_cuenta_no_negativa(filas.drop_first(), idx, obj);
    } else if j > 0 {
        lema_eliminar_agota(filas.drop_first(), idx, obj);
        assert(primera_fila_coincidente(filas.drop_first(), idx, obj) == j - 1);
        assert(filas.remove(j).drop_first() =~= filas.drop_first().remove(j - 1));
        assert(filas.remove(j)[0] == filas[0]);
    }
}

proof fn lema_cuenta_no_negativa(filas: Seq<Seq<char>>, idx: int, obj: Seq<char>)
    ensures
        cuenta_coincidencias(filas, idx, obj) >= 0,
    decreases filas.len(),
{
    if filas.len() > 0 {
        lema_cuenta_no_negativa(filas.drop_first(), idx, obj);
    }
}

/// The clustering-cell index used by delete and update: 1 when the
/// partition key is numeric, else 2.
pub open spec fn indice_busqueda(clave: Seq<char>) -> int {
    if es_natural(clave) && valor_decimal(clave) <= u64::MAX {
        1
    } else {
        2
    }
}

/// The right-hand side of a ` = ` condition, as written.
pub open spec fn lado_derecho(cond: Seq<char>) -> Seq<char> {
    let partes = dividir(cond, " = "@);
    if partes.len() >= 2 {
        partes[1]
    } else {
        Seq::empty()
    }
}

impl Tabla {
    /// A table with the given name and headers, holding no rows.
    pub fn new(nombre: String, headers: Vec<String>) -> (r: Self)
        ensures
            r.nombre@ == nombre@,
            r.headers == headers,
            r.datos@.len() == 0,
            bien_formada(r.datos@),
    {
        Tabla { nombre, headers, datos: Vec::new() }
    }

    /// Whether some partition holds this exact row string.
    pub open spec fn fila_presente(&self, clave: Seq<char>, fila: Seq<char>) -> bool {
        {
            let j = indice_particion(self.datos@, clave);
            j >= 0 && self.datos@[j].filas.deep_view().contains(fila)
        }
    }

    /// Insert a row under the key of its first field: appended at the
    /// end of its own key's bucket (the bucket created at the end of the
    /// store when absent), every other partition untouched; a row
    /// already present in its partition leaves the store unchanged.
    #[verifier::loop_isolation(false)]
    pub fn insertar(&mut self, row: String)
        requires
            bien_formada(old(self).datos@),
        ensures
            bien_formada(final(self).datos@),
            final(self).nombre == old(self).nombre,
            final(self).headers == old(self).headers,
            old(self).fila_presente(celdas(row@)[0], row@) ==> final(self).datos@ == old(
                self,
            ).datos@,
            !old(self).fila_presente(celdas(row@)[0], row@) ==> filas_planas(
                final(self).datos@,
            ).to_multiset() == filas_planas(old(self).datos@).to_multiset().insert(row@),
            forall|k: Seq<char>|
                indice_particion(final(self).datos@, k) >= 0 <==> (indice_particion(
                    old(self).datos@,
                    k,
                ) >= 0 || k == celdas(row@)[0]),
            ({
                let clave = celdas(row@)[0];
                let j = indice_particion(old(self).datos@, clave);
                if j >= 0 {
                    if old(self).datos@[j].filas.deep_view().contains(row@) {
                        final(self).datos@ == old(self).datos@
                    } else {
                        &&& final(self).datos@.len() == old(self).datos@.len()
                        &&& forall|x: int|
                            0 <= x < old(self).datos@.len() && x != j ==> final(self).datos@[x]
                                == old(self).datos@[x]
                        &&& final(self).datos@[j].clave == old(self).datos@[j].clave
                        &&& final(self).datos@[j].filas.deep_view() == old(
                            self,
                        ).datos@[j].filas.deep_view().push(row@)
                    }
                } else {
                    &&& final(self).datos@.len() == old(self).datos@.len() + 1
                    &&& forall|x: int|
                        0 <= x < old(self).datos@.len() ==> final(self).datos@[x] == old(
                            self,
                        ).datos@[x]
                    &&& final(self).datos@.last().clave@ == clave
                    &&& final(self).datos@.last().filas.deep_view() == seq![row@]
                }
            }),
            final(self).fila_presente(celdas(row@)[0], row@),
    {
        let coma: Vec<char> = vec![','];
        let fila_chars = chars_de_cadena(row.as_str());
        let registros = dividir_texto(&fila_chars, &coma);
        proof {
            assert(coma@ =~= seq![',']);
            lema_dividir_no_vacio(row@, seq![',']);
        }
        let clave = cadena_de_chars(&registros[0]);
        proof {
            assert(registros.deep_view()[0] == celdas(row@)[0]);
            assert(registros.deep_view()[0] == registros@[0]@);
            assert(clave@ == celdas(row@)[0]);
            lema_indice_particion(self.datos@, clave@);
        }
        let mut i: usize = 0;
        let ghost datos0 = self.datos@;
        let ghost k = clave@;
        while i < self.datos.len()
            invariant
                *self == *old(self),
                self.datos@ == datos0,
                k == clave@,
                k == celdas(row@)[0],
                0 <= i <= datos0.len(),
                forall|j: int| 0 <= j < i ==> datos0[j].clave@ != k,
            decreases datos0.len() - i,
        {
            if self.datos[i].clave == clave {
                proof {
                    lema_indice_particion(datos0, k);
                    lema_indice_en(datos0, k, i as int);
                    assert(indice_particion(datos0, k) == i);
                }
                let mut presente = false;
                let mut f: usize = 0;
                let ghost filas0 = self.datos@[i as int].filas.deep_view();
                while f < self.datos[i].filas.len()
                    invariant
                        *self == *old(self),
                        self.datos@ == datos0,
                        0 <= f <= filas0.len(),
                        i < datos0.len(),
                        filas0 == datos0[i as int].filas.deep_view(),
                        presente <==> exists|g: int| 0 <= g < f && filas0[g] == row@,
                    decreases filas0.len() - f,
                {
                    proof {
                        assert(filas0[f as int] == datos0[i as int].filas@[f as int]@);
                    }
                    if self.datos[i].filas[f] == row {
                        presente = true;
                    }
                    f += 1;
                }
                proof {
                    assert(presente <==> filas0.contains(row@));
                }
                if !presente {
                    let mut parte = self.datos.remove(i);
                    parte.filas.push(row);
                    self.datos.insert(i, parte);
                    proof {
                        assert(self.datos@[i as int].filas.deep_view() =~~= filas0.push(row@));
                        assert(self.datos@.len() == datos0.len());
                        assert forall|j: int|
                            0 <= j < datos0.len() && j != i implies self.datos@[j] == datos0[j] by {
                            if j < i {
                                assert(datos0.remove(i as int)[j] == datos0[j]);
                            } else {
                                assert(datos0.remove(i as int)[j - 1] == datos0[j]);
                            }
                        }
                        assert(self.datos@[i as int].clave@ == datos0[i as int].clave@);
                        assert(forall|j: int|
                            0 <= j < datos0.len() ==> self.datos@[j].clave@ == datos0[j].clave@);
                        lema_filas_planas_actualiza(datos0, self.datos@, i as int, row@);
                        lema_indice_mismas_claves(datos0, self.datos@, k);
                        assert(!old(self).fila_presente(k, row@));
                        assert(indice_particion(self.datos@, k) == i);
                        assert(self.datos@[i as int].filas.deep_view().last() == row@);
                        assert(self.datos@[i as int].filas.deep_view().contains(row@));
                        assert(self.fila_presente(k, row@));
                        assert forall|x: int, y: int|
                            0 <= x < y < self.datos@.len() implies self.datos@[x].clave@
                            != self.datos@[y].clave@ by {
                            if x != i {
                                assert(self.datos@[x] == datos0[x]);
                            }
                            if y != i {
                                assert(self.datos@[y] == datos0[y]);
                            }
                            assert(self.datos@[x].clave@ == datos0[x].clave@);
                            assert(self.datos@[y].clave@ == datos0[y].clave@);
                            assert(datos0[x].clave@ != datos0[y].clave@);
                        }
                        assert(bien_formada(self.datos@));
                    }
                } else {
                    proof {
                        assert(old(self).fila_presente(k, row@));
                        assert(self.datos@ == datos0);
                    }
                }
                return ;
            }
            i += 1;
        }
        proof {
            lema_indice_particion(datos0, k);
            assert(indice_particion(datos0, k) == -1);
            assert(!old(self).fila_presente(k, row@));
        }
        let mut filas_nuevas: Vec<String> = Vec::new();
        filas_nuevas.push(row);
        let ghost vista_fila = filas_nuevas@[0]@;
        let nueva = Particion { clave, filas: filas_nuevas };
        let ghost antes = self.datos@;
        proof {
            assert(nueva.filas.deep_view() =~~= seq![vista_fila]);
        }
        self.datos.push(nueva);
        proof {
            lema_filas_planas_empuja(antes, nueva, vista_fila);
            assert(self.datos@ == antes.push(nueva));
            assert(self.datos@.drop_last() =~= antes);
            assert forall|x: int, y: int|
                0 <= x < y < self.datos@.len() implies self.datos@[x].clave@
                != self.datos@[y].clave@ by {
                if y == self.datos@.len() - 1 {
                    assert(self.datos@[y].clave@ == k);
                    assert(self.datos@[x] == antes[x]);
                } else {
                    assert(self.datos@[x] == antes[x]);
                    assert(self.datos@[y] == antes[y]);
                }
            }
            assert forall|kk: Seq<char>|
                indice_particion(self.datos@, kk) >= 0 <==> (indice_particion(antes, kk) >= 0
                    || kk == k) by {
                lema_indice_particion(self.datos@, kk);
                lema_indice_particion(antes, kk);
                if indice_particion(self.datos@, kk) >= 0 {
                    let j = indice_particion(self.datos@, kk);
                    if j < antes.len() {
                        assert(antes[j].clave@ == kk);
                        lema_indice_en(antes, kk, j);
                    } else {
                        assert(kk == k);
                    }
                }
                if indice_particion(antes, kk) >= 0 {
                    let j = indice_particion(antes, kk);
                    assert(self.datos@[j].clave@ == kk);
                    lema_indice_en(self.datos@, kk, j);
                }
                if kk == k {
                    assert(self.datos@[self.datos@.len() - 1].clave@ == kk);
                    lema_indice_en(self.datos@, kk, self.datos@.len() - 1);
                }
            }
            assert(self.fila_presente(k, row@)) by {
                lema_indice_particion(self.datos@, k);
                let m = indice_particion(self.datos@, k);
                assert(m >= 0) by {
                    lema_indice_en(self.datos@, k, self.datos@.len() - 1);
                }
                assert(self.datos@[m].clave@ == k);
                if m < antes.len() {
                    assert(self.datos@[m] == antes[m]);
                    assert(antes[m].clave@ != k);
                    assert(false);
                }
                assert(m == self.datos@.len() - 1);
                assert(self.datos@[m].filas.deep_view() =~~= seq![vista_fila]);
                assert(self.datos@[m].filas.deep_view()[0] == row@);
                assert(self.datos@[m].filas.deep_view().contains(row@));
            }
        }
    }

    /// Every row of every partition, in store order: what persistence
    /// writes to the table's file, one line per row.
    #[verifier::loop_isolation(false)]
    pub fn lineas_de_tabla(&self) -> (r: Vec<String>)
        ensures
            r.deep_view() == filas_planas(self.datos@),
    {
        let mut r: Vec<String> = Vec::new();
        let mut i: usize = 0;
        while i < self.datos.len()
            invariant
                0 <= i <= self.datos@.len(),
                r.deep_view() == filas_planas(self.datos@.subrange(0, i as int)),
            decreases self.datos@.len() - i,
        {
            let ghost pref = self.datos@.subrange(0, i as int);
            let parte = &self.datos[i];
            let mut f: usize = 0;
            while f < parte.filas.len()
                invariant
                    0 <= f <= parte.filas@.len(),
                    i < self.datos@.len(),
                    parte == self.datos@[i as int],
                    r.deep_view() == filas_planas(self.datos@.subrange(0, i as int))
                        + parte.filas.deep_view().subrange(0, f as int),
                decreases parte.filas@.len() - f,
            {
                let fila = parte.filas[f].clone();
                let ghost r_antes = r.deep_view();
                proof {
                    assert(fila@ == parte.filas.deep_view()[f as int]);
                }
                r.push(fila);
                proof {
                    assert(r.deep_view() =~~= r_antes.push(parte.filas.deep_view()[f as int]));
                    assert(parte.filas.deep_view().subrange(0, f + 1 as int)
                        =~~= parte.filas.deep_view().subrange(0, f as int).push(
                        parte.filas.deep_view()[f as int],
                    ));
                    assert(r.deep_view() =~~= filas_planas(self.datos@.subrange(0, i as int))
                        + parte.filas.deep_view().subrange(0, f + 1 as int));
                }
                f += 1;
            }
            proof {
                assert(parte.filas.deep_view().subrange(0, parte.filas.deep_view().len() as int)
                    =~~= parte.filas.deep_view());
                lema_filas_planas_extiende(pref, self.datos@[i as int]);
                assert(pref.push(self.datos@[i as int]) =~= self.datos@.subrange(0, i + 1 as int));
                assert(r.deep_view() =~~= filas_planas(self.datos@.subrange(0, i + 1 as int)));
            }
            i += 1;
        }
        proof {
            assert(self.datos@.subrange(0, self.datos@.len() as int) =~= self.datos@);
        }
        r
    }

    /// The rows the restriction admits, projected onto the columns the
    /// statement's column list names.
    #[verifier::loop_isolation(false)]
    pub fn select(&self, condicion: &CondicionWhere, query: &str) -> (r: Vec<String>)
        ensures
            r.deep_view() == seleccion(
                self.datos@,
                self.headers.deep_view(),
                condicion.condicion1@,
                condicion.condicion2@,
                query@,
            ),
    {
        let indices = detectar_columnas(&self.headers, query);
        let c1 = chars_de_cadena(condicion.condicion1.as_str());
        let c2 = chars_de_cadena(condicion.condicion2.as_str());
        let coma: Vec<char> = vec![','];
        proof {
            assert(coma@ =~= seq![',']);
        }
        let mut elegidas: Vec<Vec<String>> = Vec::new();
        let ghost procesadas = Seq::<Seq<char>>::empty();
        let mut i: usize = 0;
        proof {
            assert(filas_planas(self.datos@.subrange(0, 0)) =~~= procesadas) by {
                assert(self.datos@.subrange(0, 0) =~= Seq::<Particion>::empty());
            }
        }
        while i < self.datos.len()
            invariant
                0 <= i <= self.datos@.len(),
                coma@ == seq![','],
                c1@ == condicion.condicion1@,
                c2@ == condicion.condicion2@,
                elegidas.deep_view() == filtrar_filas(
                    filas_planas(self.datos@.subrange(0, i as int)),
                    c1@,
                    c2@,
                    self.headers.deep_view(),
                ),
            decreases self.datos@.len() - i,
        {
            let ghost pref = self.datos@.subrange(0, i as int);
            let parte = &self.datos[i];
            let mut f: usize = 0;
            while f < parte.filas.len()
                invariant
                    0 <= f <= parte.filas@.len(),
                    i < self.datos@.len(),
                    coma@ == seq![','],
                    c1@ == condicion.condicion1@,
                    c2@ == condicion.condicion2@,
                    parte == self.datos@[i as int],
                    elegidas.deep_view() == filtrar_filas(
                        filas_planas(pref) + parte.filas.deep_view().subrange(0, f as int),
                        c1@,
                        c2@,
                        self.headers.deep_view(),
                    ),
                decreases parte.filas@.len() - f,
            {
                let ghost antes = filas_planas(pref) + parte.filas.deep_view().subrange(
                    0,
                    f as int,
                );
                let ghost fila_vista = parte.filas.deep_view()[f as int];
                proof {
                    assert((filas_planas(pref) + parte.filas.deep_view().subrange(0, f + 1 as int))
                        .drop_last() =~~= antes);
                    assert((filas_planas(pref) + parte.filas.deep_view().subrange(0, f + 1 as int))
                        .last() == fila_vista);
                }
                let fila_chars = chars_de_cadena(parte.filas[f].as_str());
                let cels = dividir_texto(&fila_chars, &coma);
                proof {
                    assert(cels.deep_view() == celdas(fila_vista));
                }
                let pasa = if c1.len() == 0 {
                    true
                } else {
                    verificar_condiciones(&c1, &c2, &cels, &self.headers)
                };
                if pasa {
                    let mut celdas_cadena: Vec<String> = Vec::new();
                    let mut x: usize = 0;
                    while x < cels.len()
                        invariant
                            0 <= x <= cels@.len(),
                            celdas_cadena.deep_view() == cels.deep_view().subrange(0, x as int),
                        decreases cels@.len() - x,
                    {
                        celdas_cadena.push(cadena_de_chars(&cels[x]));
                        proof {
                            assert(celdas_cadena.deep_view() =~~= cels.deep_view().subrange(
                                0,
                                x + 1 as int,
                            ));
                        }
                        x += 1;
                    }
                    proof {
                        assert(celdas_cadena.deep_view() =~~= cels.deep_view());
                    }
                    elegidas.push(celdas_cadena);
                    proof {
                        assert(elegidas.deep_view() =~~= filtrar_filas(
                            antes,
                            c1@,
                            c2@,
                            self.headers.deep_view(),
                        ) + seq![celdas(fila_vista)]);
                    }
                } else {
                    proof {
                        assert(elegidas.deep_view() =~~= filtrar_filas(
                            antes.push(fila_vista),
                            c1@,
                            c2@,
                            self.headers.deep_view(),
                        )) by {
                            assert(antes.push(fila_vista).drop_last() =~~= antes);
                        }
                    }
                }
                proof {
                    assert(antes.push(fila_vista) =~~= filas_planas(pref)
                        + parte.filas.deep_view().subrange(0, f + 1 as int));
                }
                f += 1;
            }
            proof {
                assert(parte.filas.deep_view().subrange(0, parte.filas.deep_view().len() as int)
                    =~~= parte.filas.deep_view());
                lema_filas_planas_extiende(pref, self.datos@[i as int]);
                assert(pref.push(self.datos@[i as int]) =~= self.datos@.subrange(0, i + 1 as int));
            }
            i += 1;
        }
        proof {
            assert(self.datos@.subrange(0, self.datos@.len() as int) =~= self.datos@);
        }
        imprimir_lineas(&indices, &elegidas)
    }

    /// Remove, from the partition the first condition keys, the first row
    /// whose clustering cell equals the second condition's right-hand side.
    #[verifier::loop_isolation(false)]
    pub fn eliminar(&mut self, condicion: &CondicionWhere)
        requires
            bien_formada(old(self).datos@),
        ensures
            final(self).nombre == old(self).nombre,
            final(self).headers == old(self).headers,
            bien_formada(final(self).datos@),
            eliminacion_aplica(
                old(self).datos@,
                final(self).datos@,
                condicion.condicion1@,
                condicion.condicion2@,
            ),
    {
        let sep: Vec<char> = vec![' ', '=', ' '];
        proof {
            reveal_strlit(" = ");
            assert(sep@ =~= " = "@);
        }
        let c1 = chars_de_cadena(condicion.condicion1.as_str());
        let c2 = chars_de_cadena(condicion.condicion2.as_str());
        let p1 = dividir_texto(&c1, &sep);
        let p2 = dividir_texto(&c2, &sep);
        if p1.len() < 2 || p2.len() < 2 {
            return ;
        }
        let clave = &p1[1];
        let obj = &p2[1];
        proof {
            assert(p1.deep_view()[1] == p1@[1]@);
            assert(p2.deep_view()[1] == p2@[1]@);
        }
        let idx: usize = match parsear_natural(clave) {
            Some(_) => 1,
            None => 2,
        };
        proof {
            assert(idx == indice_busqueda(clave@));
        }
        let clave_cadena = cadena_de_chars(clave);
        let ghost datos0 = self.datos@;
        let mut i: usize = 0;
        while i < self.datos.len()
            invariant
                *self == *old(self),
                0 <= i <= datos0.len(),
                forall|j: int| 0 <= j < i ==> datos0[j].clave@ != clave@,
            decreases datos0.len() - i,
        {
            if self.datos[i].clave == clave_cadena {
                proof {
                    lema_indice_particion(datos0, clave@);
                    lema_indice_en(datos0, clave@, i as int);
                    assert(indice_particion(datos0, clave@) == i);
                }
                let ghost filas0 = self.datos@[i as int].filas.deep_view();
                let coma: Vec<char> = vec![','];
                proof {
                    assert(coma@ =~= seq![',']);
                    lema_primera_fila(filas0, idx as int, obj@);
                }
                let mut f: usize = 0;
                let tope = self.datos[i].filas.len();
                while f < tope
                    invariant
                        *self == *old(self),
                        i < datos0.len(),
                        tope == filas0.len(),
                        0 <= f <= filas0.len(),
                        filas0 == datos0[i as int].filas.deep_view(),
                        forall|g: int|
                            0 <= g < f ==> !(celdas(#[trigger] filas0[g]).len() > idx
                                && celdas(filas0[g])[idx as int] == obj@),
                    decreases filas0.len() - f,
                {
                    let fila_chars = chars_de_cadena(self.datos[i].filas[f].as_str());
                    let cels = dividir_texto(&fila_chars, &coma);
                    proof {
                        assert(cels.deep_view() == celdas(filas0[f as int]));
                    }
                    let pega = if idx < cels.len() {
                        proof {
                            assert(cels.deep_view()[idx as int] == cels@[idx as int]@);
                        }
                        textos_iguales(&cels[idx], obj)
                    } else {
                        false
                    };
                    if pega {
                        proof {
                            assert(primera_fila_coincidente(filas0, idx as int, obj@) == f);
                        }
                        let mut parte = self.datos.remove(i);
                        parte.filas.remove(f);
                        self.datos.insert(i, parte);
                        proof {
                            assert(self.datos@[i as int].filas.deep_view() =~~= filas0.remove(
                                f as int,
                            ));
                            assert forall|x: int|
                                0 <= x < datos0.len() && x != i implies self.datos@[x]
                                == datos0[x] by {
                                if x < i {
                                    assert(datos0.remove(i as int)[x] == datos0[x]);
                                } else {
                                    assert(datos0.remove(i as int)[x - 1] == datos0[x]);
                                }
                            }
                            assert(self.datos@[i as int].clave@ == datos0[i as int].clave@);
                            assert forall|x: int, y: int|
                                0 <= x < y < self.datos@.len() implies self.datos@[x].clave@
                                != self.datos@[y].clave@ by {
                                assert(self.datos@[x].clave@ == datos0[x].clave@);
                                assert(self.datos@[y].clave@ == datos0[y].clave@);
                            }
                        }
                        return ;
                    }
                    f += 1;
                }
                proof {
                    assert(primera_fila_coincidente(filas0, idx as int, obj@) == -1);
                }
                return ;
            }
            i += 1;
        }
        proof {
            lema_indice_particion(datos0, clave@);
        }
    }

    /// Apply the assignment list to every row of the keyed partition
    /// whose clustering cell equals the second condition's right-hand side.
    #[verifier::loop_isolation(false)]
    pub fn actualizar(&mut self, condicion: &CondicionWhere, query: String)
        requires
            bien_formada(old(self).datos@),
        ensures
            final(self).nombre == old(self).nombre,
            final(self).headers == old(self).headers,
            bien_formada(final(self).datos@),
            actualizacion_aplica(
                old(self).datos@,
                final(self).datos@,
                condicion.condicion1@,
                condicion.condicion2@,
                query@,
                old(self).headers.deep_view(),
            ),
    {
        let sep: Vec<char> = vec![' ', '=', ' '];
        proof {
            reveal_strlit(" = ");
            assert(sep@ =~= " = "@);
        }
        let c1 = chars_de_cadena(condicion.condicion1.as_str());
        let c2 = chars_de_cadena(condicion.condicion2.as_str());
        let p1 = dividir_texto(&c1, &sep);
        let p2 = dividir_texto(&c2, &sep);
        if p1.len() < 2 || p2.len() < 2 {
            return ;
        }
        let clave = &p1[1];
        let obj = &p2[1];
        proof {
            assert(p1.deep_view()[1] == p1@[1]@);
            assert(p2.deep_view()[1] == p2@[1]@);
        }
        let idx: usize = match parsear_natural(clave) {
            Some(_) => 1,
            None => 2,
        };
        proof {
            assert(idx == indice_busqueda(clave@));
        }
        let clave_cadena = cadena_de_chars(clave);
        let cambios = chars_de_cadena(query.as_str());
        let coma_sep: Vec<char> = vec![',', ' '];
        proof {
            reveal_strlit(", ");
            assert(coma_sep@ =~= ", "@);
        }
        let piezas = dividir_texto(&cambios, &coma_sep);
        let ghost datos0 = self.datos@;
        let ghost headers0 = self.headers.deep_view();
        let mut i: usize = 0;
        while i < self.datos.len()
            invariant
                *self == *old(self),
                0 <= i <= datos0.len(),
                forall|j: int| 0 <= j < i ==> datos0[j].clave@ != clave@,
            decreases datos0.len() - i,
        {
            if self.datos[i].clave == clave_cadena {
                proof {
                    lema_indice_particion(datos0, clave@);
                    lema_indice_en(datos0, clave@, i as int);
                    assert(indice_particion(datos0, clave@) == i);
                }
                let ghost filas0 = self.datos@[i as int].filas.deep_view();
                let coma: Vec<char> = vec![','];
                proof {
                    assert(coma@ =~= seq![',']);
                }
                let mut parte = self.datos.remove(i);
                let tope = parte.filas.len();
                let mut f: usize = 0;
                while f < tope
                    invariant
                        0 <= f <= filas0.len(),
                        tope == filas0.len(),
                        parte.filas.deep_view().len() == filas0.len(),
                        parte.clave@ == datos0[i as int].clave@,
                        i < datos0.len(),
                        filas0 == datos0[i as int].filas.deep_view(),
                        coma@ == seq![','],
                        headers0 == self.headers.deep_view(),
                        forall|g: int|
                            0 <= g < filas0.len() ==> parte.filas.deep_view()[g] == (if f > g
                                && celdas(#[trigger] filas0[g]).len() > idx && celdas(
                                filas0[g],
                            )[idx as int] == obj@ {
                                aplicar_asignaciones(filas0[g], query@, headers0)
                            } else {
                                filas0[g]
                            }),
                    decreases filas0.len() - f,
                {
                    let fila_chars = chars_de_cadena(parte.filas[f].as_str());
                    let mut cels = dividir_texto(&fila_chars, &coma);
                    proof {
                        assert(parte.filas.deep_view()[f as int] == filas0[f as int]);
                        assert(cels.deep_view() == celdas(filas0[f as int]));
                    }
                    let pega = if idx < cels.len() {
                        proof {
                            assert(cels.deep_view()[idx as int] == cels@[idx as int]@);
                        }
                        textos_iguales(&cels[idx], obj)
                    } else {
                        false
                    };
                    if pega {
                        let ghost cels0 = cels.deep_view();
                        let mut p: usize = 0;
                        while p < piezas.len()
                            invariant
                                0 <= p <= piezas@.len(),
                                piezas.deep_view() == dividir(query@, ", "@),
                                headers0 == self.headers.deep_view(),
                                cels.deep_view() == aplicar_piezas(
                                    cels0,
                                    piezas.deep_view().subrange(0, p as int),
                                    headers0,
                                ),
                            decreases piezas@.len() - p,
                        {
                            let ghost pref = piezas.deep_view().subrange(0, p as int);
                            proof {
                                assert(piezas.deep_view().subrange(0, p + 1 as int).drop_last()
                                    =~~= pref);
                                assert(piezas.deep_view().subrange(0, p + 1 as int).last()
                                    == piezas.deep_view()[p as int]);
                                assert(piezas.deep_view()[p as int] == piezas@[p as int]@);
                            }
                            let limpia = recortar_texto(&piezas[p]);
                            let sub = dividir_texto(&limpia, &sep);
                            if sub.len() >= 2 {
                                proof {
                                    assert(sub.deep_view()[0] == sub@[0]@);
                                    assert(sub.deep_view()[1] == sub@[1]@);
                                }
                                match buscar_primera_columna(&self.headers, &sub[0]) {
                                    Some(u) if u < cels.len() => {
                                        let nuevo = subvec(&sub[1], 0, sub[1].len());
                                        let ghost cels_antes = cels.deep_view();
                                        cels.remove(u);
                                        cels.insert(u, nuevo);
                                        proof {
                                            assert(nuevo@ =~= sub.deep_view()[1]);
                                            assert(cels.deep_view() =~~= cels_antes.update(
                                                u as int,
                                                sub.deep_view()[1],
                                            ));
                                        }
                                    },
                                    _ => {},
                                }
                            }
                            p += 1;
                        }
                        proof {
                            assert(piezas.deep_view().subrange(
                                0,
                                piezas.deep_view().len() as int,
                            ) =~~= piezas.deep_view());
                            assert(cels.deep_view() == aplicar_piezas(
                                cels0,
                                dividir(query@, ", "@),
                                headers0,
                            ));
                        }
                        let unida = unir_texto(&cels, &coma);
                        let nueva_fila = cadena_de_chars(&unida);
                        let ghost filas_antes = parte.filas.deep_view();
                        parte.filas.remove(f);
                        parte.filas.insert(f, nueva_fila);
                        proof {
                            assert(nueva_fila@ == aplicar_asignaciones(
                                filas0[f as int],
                                query@,
                                headers0,
                            ));
                            assert(parte.filas.deep_view() =~~= filas_antes.update(
                                f as int,
                                nueva_fila@,
                            ));
                        }
                    }
                    f += 1;
                }
                let ghost despues_quita = self.datos@;
                self.datos.insert(i, parte);
                proof {
                    assert forall|x: int|
                        0 <= x < datos0.len() && x != i implies self.datos@[x] == datos0[x] by {
                        if x < i {
                            assert(datos0.remove(i as int)[x] == datos0[x]);
                        } else {
                            assert(datos0.remove(i as int)[x - 1] == datos0[x]);
                        }
                    }
                    assert(self.datos@[i as int].clave@ == datos0[i as int].clave@);
                    assert forall|x: int, y: int|
                        0 <= x < y < self.datos@.len() implies self.datos@[x].clave@
                        != self.datos@[y].clave@ by {
                        assert(self.datos@[x].clave@ == datos0[x].clave@);
                        assert(self.datos@[y].clave@ == datos0[y].clave@);
                    }
                }
                return ;
            }
            i += 1;
        }
        proof {
            lema_indice_particion(datos0, clave@);
        }
    }
}

/// If some position holds the key, the key's index is defined.
pub proof fn lema_indice_en(datos: Seq<Particion>, k: Seq<char>, j: int)
    requires
        0 <= j < datos.len(),
        datos[j].clave@ == k,
    ensures
        indice_particion(datos, k) >= 0,
    decreases datos.len(),
{
    if datos[0].clave@ != k {
        lema_indice_en(datos.drop_first(), k, j - 1);
    }
}

proof fn lema_filas_planas_empuja(antes: Seq<Particion>, p: Particion, fila: Seq<char>)
    requires
        p.filas.deep_view() == seq![fila],
    ensures
        filas_planas(antes.push(p)).to_multiset() == filas_planas(antes).to_multiset().insert(
            fila,
        ),
    decreases antes.len(),
{
    broadcast use vstd::seq_lib::group_seq_properties;

    if antes.len() == 0 {
        assert(antes.push(p).drop_first() =~= Seq::<Particion>::empty());
        assert(antes.push(p)[0] == p);
        assert(filas_planas(Seq::<Particion>::empty()) =~= Seq::<Seq<char>>::empty());
        assert(filas_planas(antes.push(p)) =~= seq![fila] + Seq::<Seq<char>>::empty());
        assert(filas_planas(antes.push(p)) =~= seq![fila]);
        assert(filas_planas(antes) =~= Seq::<Seq<char>>::empty());
        assert(seq![fila].to_multiset() =~= Seq::<Seq<char>>::empty().to_multiset().insert(fila));
    } else {
        lema_filas_planas_empuja(antes.drop_first(), p, fila);
        assert(antes.push(p).drop_first() =~= antes.drop_first().push(p));
        assert(antes.push(p)[0] == antes[0]);
        lema_multiset_concat(antes[0].filas.deep_view(), filas_planas(antes.drop_first().push(p)));
        lema_multiset_concat(antes[0].filas.deep_view(), filas_planas(antes.drop_first()));
    }
}

/// Replacing one partition by a version with one more row adds that row
/// to the flattened multiset.
proof fn lema_filas_planas_actualiza(
    antes: Seq<Particion>,
    despues: Seq<Particion>,
    i: int,
    fila: Seq<char>,
)
    requires
        0 <= i < antes.len(),
        despues.len() == antes.len(),
        despues[i].filas.deep_view() == antes[i].filas.deep_view().push(fila),
        forall|j: int| 0 <= j < antes.len() && j != i ==> despues[j] == antes[j],
        despues[i].clave@ == antes[i].clave@,
    ensures
        filas_planas(despues).to_multiset() == filas_planas(antes).to_multiset().insert(fila),
    decreases antes.len(),
{
    broadcast use vstd::seq_lib::group_seq_properties;

    if i == 0 {
        assert(despues.drop_first() =~= antes.drop_first());
        lema_multiset_concat(despues[0].filas.deep_view(), filas_planas(despues.drop_first()));
        lema_multiset_concat(antes[0].filas.deep_view(), filas_planas(antes.drop_first()));
        assert(despues[0].filas.deep_view().to_multiset() == antes[0].filas.deep_view().to_multiset().insert(fila));
    } else {
        lema_filas_planas_actualiza(antes.drop_first(), despues.drop_first(), i - 1, fila);
        assert(despues[0] == antes[0]);
        lema_multiset_concat(despues[0].filas.deep_view(), filas_planas(despues.drop_first()));
        lema_multiset_concat(antes[0].filas.deep_view(), filas_planas(antes.drop_first()));
    }
}

/// The multiset of a concatenation is the sum of the multisets.
proof fn lema_multiset_concat(a: Seq<Seq<char>>, b: Seq<Seq<char>>)
    ensures
        (a + b).to_multiset() == a.to_multiset().add(b.to_multiset()),
{
    vstd::seq_lib::lemma_multiset_commutative(a, b);
}

/// A comparison operator of a restriction condition.
#[derive(Debug, Clone, Copy, PartialEq, Eq, Structural)]
pub enum Operador {
    Igual,
    Mayor,
    MayorIgual,
    Menor,
    MenorIgual,
    Ninguno,
}

/// The first comparison operator that appears in `s`; a `>` or `<`
/// followed by `=` is read as the two-character operator.
pub open spec fn operador_de(s: Seq<char>) -> Operador
    decreases s.len(),
{
    if s.len() == 0 {
        Operador::Ninguno
    } else if s[0] == '=' {
        Operador::Igual
    } else if s[0] == '>' {
        if s.len() > 1 && s[1] == '=' {
            Operador::MayorIgual
        } else {
            Operador::Mayor
        }
    } else if s[0] == '<' {
        if s.len() > 1 && s[1] == '=' {
            Operador::MenorIgual
        } else {
            Operador::Menor
        }
    } else {
        operador_de(s.drop_first())
    }
}

/// The characters an operator is written with.
pub open spec fn texto_operador(op: Operador) -> Seq<char> {
    match op {
        Operador::Igual => seq!['='],
        Operador::Mayor => seq!['>'],
        Operador::MayorIgual => seq!['>', '='],
        Operador::Menor => seq!['<'],
        Operador::MenorIgual => seq!['<', '='],
        Operador::Ninguno => Seq::empty(),
    }
}

/// Where a condition holds an operator, splitting it at that operator
/// yields at least two pieces.
pub proof fn lema_operador_divide(s: Seq<char>)
    requires
        operador_de(s) != Operador::Ninguno,
    ensures
        dividir(s, texto_operador(operador_de(s))).len() >= 2,
    decreases s.len(),
{
    let op = operador_de(s);
    let pat = texto_operador(op);
    assert(pat.len() > 0);
    lema_operador_ocurre(s);
    crate::texto::lema_primera_ocurrencia(s, pat);
    let i = crate::texto::primera_ocurrencia(s, pat);
    if i < 0 {
        let j = choose|j: int| crate::texto::ocurre_en(s, pat, j);
        assert(false);
    }
    assert(crate::texto::ocurre_en(s, pat, i));
    lema_dividir_no_vacio(s.subrange(i + pat.len(), s.len() as int), pat);
}

/// The operator found by the scan really occurs in the text.
pub proof fn lema_operador_ocurre(s: Seq<char>)
    requires
        operador_de(s) != Operador::Ninguno,
    ensures
        exists|i: int| crate::texto::ocurre_en(s, texto_operador(operador_de(s)), i),
    decreases s.len(),
{
    let op = operador_de(s);
    let pat = texto_operador(op);
    if s[0] == '=' || s[0] == '>' || s[0] == '<' {
        assert(crate::texto::ocurre_en(s, pat, 0)) by {
            assert(s.subrange(0, pat.len() as int) =~= pat);
        }
    } else {
        lema_operador_ocurre(s.drop_first());
        let j = choose|j: int| crate::texto::ocurre_en(s.drop_first(), pat, j);
        assert(crate::texto::ocurre_en(s, pat, j + 1)) by {
            assert(s.subrange(j + 1, j + 1 + pat.len()) =~= s.drop_first().subrange(
                j,
                j + pat.len(),
            ));
        }
    }
}

/// How two cell or literal values compare: numerically when both denote
/// bounded integers, else lexicographically.
pub open spec fn check_valores(a: Seq<char>, op: Operador, b: Seq<char>) -> bool {
    if entero_acotado(a) && entero_acotado(b) {
        match op {
            Operador::Igual => valor_entero(a) == valor_entero(b),
            Operador::Mayor => valor_entero(a) > valor_entero(b),
            Operador::MayorIgual => valor_entero(a) >= valor_entero(b),
            Operador::Menor => valor_entero(a) < valor_entero(b),
            Operador::MenorIgual => valor_entero(a) <= valor_entero(b),
            Operador::Ninguno => false,
        }
    } else {
        match op {
            Operador::Igual => a == b,
            Operador::Mayor => lex_menor(b, a),
            Operador::MayorIgual => !lex_menor(a, b),
            Operador::Menor => lex_menor(a, b),
            Operador::MenorIgual => !lex_menor(b, a),
            Operador::Ninguno => false,
        }
    }
}

/// Last position of `nombre` among the headers, or -1.
pub open spec fn ultima_columna(headers: Seq<Seq<char>>, nombre: Seq<char>) -> int
    decreases headers.len(),
{
    if headers.len() == 0 {
        -1
    } else if headers.last() == nombre {
        headers.len() - 1
    } else {
        ultima_columna(headers.drop_last(), nombre)
    }
}

/// The value a condition side denotes on a row: the cell of the column it
/// names when that cell exists and is non-empty, else the side itself.
pub open spec fn valor_lado(
    lado: Seq<char>,
    celdas_fila: Seq<Seq<char>>,
    headers: Seq<Seq<char>>,
) -> Seq<char> {
    let u = ultima_columna(headers, lado);
    let bruto = if 0 <= u < celdas_fila.len() {
        celdas_fila[u]
    } else {
        Seq::empty()
    };
    if bruto.len() == 0 {
        lado
    } else {
        bruto
    }
}

/// Whether one condition holds of a row's cells.
pub open spec fn cumple_condicion(
    cond: Seq<char>,
    celdas_fila: Seq<Seq<char>>,
    headers: Seq<Seq<char>>,
) -> bool {
    let op = operador_de(cond);
    if op == Operador::Ninguno {
        false
    } else {
        let partes = dividir(cond, texto_operador(op));
        if partes.len() < 2 {
            false
        } else {
            check_valores(
                valor_lado(recortar(partes[0]), celdas_fila, headers),
                op,
                valor_lado(recortar(partes[1]), celdas_fila, headers),
            )
        }
    }
}

/// Whether a row passes the whole restriction: both conditions when a
/// second is present, else the first alone.
pub open spec fn cumple_condiciones(
    cond1: Seq<char>,
    cond2: Seq<char>,
    celdas_fila: Seq<Seq<char>>,
    headers: Seq<Seq<char>>,
) -> bool {
    if cond2.len() == 0 {
        cumple_condicion(cond1, celdas_fila, headers)
    } else {
        cumple_condicion(cond1, celdas_fila, headers) && cumple_condicion(
            cond2,
            celdas_fila,
            headers,
        )
    }
}

/// The first comparison operator written in the condition, as text.
pub fn detectar_operador(condicion: &str) -> (r: &'static str)
    ensures
        r@ == texto_operador(operador_de(condicion@)),
{
    let chars = chars_de_cadena(condicion);
    let op = buscar_operador(&chars);
    proof {
        reveal_strlit("=");
        reveal_strlit(">");
        reveal_strlit(">=");
        reveal_strlit("<");
        reveal_strlit("<=");
        reveal_strlit("");
    }
    match op {
        Operador::Igual => "=",
        Operador::Mayor => ">",
        Operador::MayorIgual => ">=",
        Operador::Menor => "<",
        Operador::MenorIgual => "<=",
        Operador::Ninguno => "",
    }
}

/// Scan for the first comparison operator.
#[verifier::loop_isolation(false)]
pub fn buscar_operador(cond: &Vec<char>) -> (r: Operador)
    ensures
        r == operador_de(cond@),
{
    let mut i: usize = 0;
    proof {
        assert(cond@.skip(0) =~= cond@);
    }
    while i < cond.len()
        invariant
            0 <= i <= cond@.len(),
            operador_de(cond@) == operador_de(cond@.skip(i as int)),
        decreases cond@.len() - i,
    {
        proof {
            assert(cond@.skip(i as int)[0] == cond@[i as int]);
            assert(cond@.skip(i as int).drop_first() =~= cond@.skip(i + 1));
            if cond@.skip(i as int).len() > 1 {
                assert(cond@.skip(i as int)[1] == cond@[i + 1]);
            }
        }
        let c = cond[i];
        if c == '=' {
            return Operador::Igual;
        }
        if c == '>' {
            if i + 1 < cond.len() && cond[i + 1] == '=' {
                return Operador::MayorIgual;
            }
            return Operador::Mayor;
        }
        if c == '<' {
            if i + 1 < cond.len() && cond[i + 1] == '=' {
                return Operador::MenorIgual;
            }
            return Operador::Menor;
        }
        i += 1;
    }
    proof {
        assert(cond@.skip(cond@.len() as int).len() == 0);
    }
    Operador::Ninguno
}

/// Compare two resolved values under an operator, numerically when both
/// sides denote bounded integers and lexicographically otherwise.
pub fn check_info(valor1: &str, operador: &str, valor2: &str) -> (r: bool)
    ensures
        r == check_valores(valor1@, operador_de(operador@), valor2@),
{
    let a = chars_de_cadena(valor1);
    let b = chars_de_cadena(valor2);
    let op_chars = chars_de_cadena(operador);
    let op = buscar_operador(&op_chars);
    check_valores_exec(&a, op, &b)
}

/// Executable form of [`check_valores`].
pub fn check_valores_exec(a: &Vec<char>, op: Operador, b: &Vec<char>) -> (r: bool)
    ensures
        r == check_valores(a@, op, b@),
{
    let na = parsear_entero(a);
    let nb = parsear_entero(b);
    match (na, nb) {
        (Some(x), Some(y)) => {
            match op {
                Operador::Igual => x == y,
                Operador::Mayor => x > y,
                Operador::MayorIgual => x >= y,
                Operador::Menor => x < y,
                Operador::MenorIgual => x <= y,
                Operador::Ninguno => false,
            }
        },
        _ => {
            let c = comparar_lex(a, b);
            match op {
                Operador::Igual => c == 0,
                Operador::Mayor => c == 1,
                Operador::MayorIgual => c != -1,
                Operador::Menor => c == -1,
                Operador::MenorIgual => c != 1,
                Operador::Ninguno => false,
            }
        },
    }
}

/// Last position of the named column among the headers.
#[verifier::loop_isolation(false)]
pub fn buscar_ultima_columna(headers: &Vec<String>, nombre: &Vec<char>) -> (r: Option<usize>)
    ensures
        match r {
            Some(u) => ultima_columna(headers.deep_view(), nombre@) == u,
            None => ultima_columna(headers.deep_view(), nombre@) == -1,
        },
{
    let mut r: Option<usize> = None;
    let mut i: usize = 0;
    while i < headers.len()
        invariant
            0 <= i <= headers@.len(),
            match r {
                Some(u) => ultima_columna(headers.deep_view().subrange(0, i as int), nombre@)
                    == u,
                None => ultima_columna(headers.deep_view().subrange(0, i as int), nombre@) == -1,
            },
        decreases headers@.len() - i,
    {
        proof {
            let pref = headers.deep_view().subrange(0, i + 1 as int);
            assert(pref.drop_last() =~~= headers.deep_view().subrange(0, i as int));
            assert(pref.last() == headers.deep_view()[i as int]);
            assert(headers.deep_view()[i as int] == headers@[i as int]@);
        }
        let nombre_cadena = cadena_de_chars(nombre);
        if headers[i] == nombre_cadena {
            r = Some(i);
        }
        i += 1;
    }
    proof {
        assert(headers.deep_view().subrange(0, headers.deep_view().len() as int)
            =~~= headers.deep_view());
    }
    r
}

/// First position of the named column among the headers.
#[verifier::loop_isolation(false)]
pub fn buscar_primera_columna(headers: &Vec<String>, nombre: &Vec<char>) -> (r: Option<usize>)
    ensures
        match r {
            Some(u) => primera_columna(headers.deep_view(), nombre@) == u,
            None => primera_columna(headers.deep_view(), nombre@) == -1,
        },
{
    proof {
        lema_primera_columna(headers.deep_view(), nombre@);
    }
    let nombre_cadena = cadena_de_chars(nombre);
    let mut i: usize = 0;
    while i < headers.len()
        invariant
            0 <= i <= headers@.len(),
            nombre_cadena@ == nombre@,
            forall|k: int| 0 <= k < i ==> headers.deep_view()[k] != nombre@,
        decreases headers@.len() - i,
    {
        proof {
            assert(headers.deep_view()[i as int] == headers@[i as int]@);
        }
        if headers[i] == nombre_cadena {
            proof {
                let u = primera_columna(headers.deep_view(), nombre@);
                if u == -1 || u > i {
                    assert(headers.deep_view()[u] == nombre@ || true);
                    assert(false);
                }
                if u < i {
                    assert(headers.deep_view()[u] == nombre@);
                    assert(false);
                }
            }
            return Some(i);
        }
        i += 1;
    }
    proof {
        let u = primera_columna(headers.deep_view(), nombre@);
        if u >= 0 {
            assert(headers.deep_view()[u] == nombre@);
            assert(false);
        }
    }
    None
}

/// `primera_columna` finds exactly the first position of the name.
pub proof fn lema_primera_columna(headers: Seq<Seq<char>>, nombre: Seq<char>)
    ensures
        primera_columna(headers, nombre) == -1 ==> forall|i: int|
            0 <= i < headers.len() ==> headers[i] != nombre,
        primera_columna(headers, nombre) >= 0 ==> {
            &&& primera_columna(headers, nombre) < headers.len()
            &&& headers[primera_columna(headers, nombre)] == nombre
            &&& forall|i: int| 0 <= i < primera_columna(headers, nombre) ==> headers[i] != nombre
        },
    decreases headers.len(),
{
    if headers.len() > 0 && headers[0] != nombre {
        lema_primera_columna(headers.drop_first(), nombre);
        let r = primera_columna(headers.drop_first(), nombre);
        if r < 0 {
            assert forall|i: int| 0 <= i < headers.len() implies headers[i] != nombre by {
                if i >= 1 {
                    assert(headers.drop_first()[i - 1] == headers[i]);
                }
            }
        } else {
            assert(headers.drop_first()[r] == headers[r + 1]);
            assert forall|i: int| 0 <= i < r + 1 implies headers[i] != nombre by {
                if i >= 1 {
                    assert(headers.drop_first()[i - 1] == headers[i]);
                }
            }
        }
    }
}

/// Resolve one side of a condition on a row's cells.
pub fn valor_lado_exec(
    lado: &Vec<char>,
    celdas_fila: &Vec<Vec<char>>,
    headers: &Vec<String>,
) -> (r: Vec<char>)
    ensures
        r@ == valor_lado(lado@, celdas_fila.deep_view(), headers.deep_view()),
{
    let u = buscar_ultima_columna(headers, lado);
    match u {
        Some(idx) if idx < celdas_fila.len() => {
            if celdas_fila[idx].len() > 0 {
                let r = subvec(&celdas_fila[idx], 0, celdas_fila[idx].len());
                proof {
                    assert(r@ =~= celdas_fila.deep_view()[idx as int]);
                }
                r
            } else {
                proof {
                    assert(celdas_fila.deep_view()[idx as int].len() == 0);
                }
                subvec(lado, 0, lado.len())
            }
        },
        _ => {
            let r = subvec(lado, 0, lado.len());
            proof {
                assert(r@ =~= lado@);
            }
            r
        },
    }
}

/// Whether one condition holds of a row's cells.
pub fn verificar_condicion(
    cond: &Vec<char>,
    celdas_fila: &Vec<Vec<char>>,
    headers: &Vec<String>,
) -> (r: bool)
    ensures
        r == cumple_condicion(cond@, celdas_fila.deep_view(), headers.deep_view()),
{
    let op = buscar_operador(cond);
    if let Operador::Ninguno = op {
        return false;
    }
    let texto_op: Vec<char> = match op {
        Operador::Igual => vec!['='],
        Operador::Mayor => vec!['>'],
        Operador::MayorIgual => vec!['>', '='],
        Operador::Menor => vec!['<'],
        Operador::MenorIgual => vec!['<', '='],
        Operador::Ninguno => vec![],
    };
    proof {
        assert(texto_op@ =~= texto_operador(op));
        lema_operador_divide(cond@);
    }
    let partes = dividir_texto(cond, &texto_op);
    let izq = recortar_texto(&partes[0]);
    let der = recortar_texto(&partes[1]);
    proof {
        assert(partes.deep_view()[0] == partes@[0]@);
        assert(partes.deep_view()[1] == partes@[1]@);
    }
    let v1 = valor_lado_exec(&izq, celdas_fila, headers);
    let v2 = valor_lado_exec(&der, celdas_fila, headers);
    check_valores_exec(&v1, op, &v2)
}

/// Whether a row passes the whole restriction.
pub fn verificar_condiciones(
    cond1: &Vec<char>,
    cond2: &Vec<char>,
    celdas_fila: &Vec<Vec<char>>,
    headers: &Vec<String>,
) -> (r: bool)
    ensures
        r == cumple_condiciones(cond1@, cond2@, celdas_fila.deep_view(), headers.deep_view()),
{
    if cond2.len() == 0 {
        verificar_condicion(cond1, celdas_fila, headers)
    } else {
        verificar_condicion(cond1, celdas_fila, headers) && verificar_condicion(
            cond2,
            celdas_fila,
            headers,
        )
    }
}

/// First position of `nombre` among the headers, or -1.
pub open spec fn primera_columna(headers: Seq<Seq<char>>, nombre: Seq<char>) -> int
    decreases headers.len(),
{
    if headers.len() == 0 {
        -1
    } else if headers[0] == nombre {
        0
    } else {
        let r = primera_columna(headers.drop_first(), nombre);
        if r < 0 {
            -1
        } else {
            1 + r
        }
    }
}

/// One `col = val` assignment applied to a row's cells: the first header
/// named `col` picks the cell that `val` overwrites; a malformed piece or
/// an unknown or out-of-range column changes nothing.
pub open spec fn aplicar_pieza(
    cels: Seq<Seq<char>>,
    pieza: Seq<char>,
    headers: Seq<Seq<char>>,
) -> Seq<Seq<char>> {
    let p = dividir(recortar(pieza), " = "@);
    if p.len() < 2 {
        cels
    } else {
        let u = primera_columna(headers, p[0]);
        if 0 <= u < cels.len() {
            cels.update(u, p[1])
        } else {
            cels
        }
    }
}

/// All assignment pieces applied in order.
pub open spec fn aplicar_piezas(
    cels: Seq<Seq<char>>,
    piezas: Seq<Seq<char>>,
    headers: Seq<Seq<char>>,
) -> Seq<Seq<char>>
    decreases piezas.len(),
{
    if piezas.len() == 0 {
        cels
    } else {
        aplicar_pieza(aplicar_piezas(cels, piezas.drop_last(), headers), piezas.last(), headers)
    }
}

/// A row after an assignment list (`col = val, ...`) is applied to it.
pub open spec fn aplicar_asignaciones(
    fila: Seq<char>,
    cambios: Seq<char>,
    headers: Seq<Seq<char>>,
) -> Seq<char> {
    unir(aplicar_piezas(celdas(fila), dividir(cambios, ", "@), headers), seq![','])
}

/// What a delete leaves of the store: with a well-formed two-part
/// restriction, the first row of the keyed partition whose clustering
/// cell equals the second condition's right-hand side is removed.
pub open spec fn eliminacion_aplica(
    antes: Seq<Particion>,
    despues: Seq<Particion>,
    c1: Seq<char>,
    c2: Seq<char>,
) -> bool {
    let p1 = dividir(c1, " = "@);
    let p2 = dividir(c2, " = "@);
    if p1.len() < 2 || p2.len() < 2 {
        despues == antes
    } else {
        let clave = p1[1];
        let obj = p2[1];
        let j = indice_particion(antes, clave);
        if j < 0 {
            despues == antes
        } else {
            let m = primera_fila_coincidente(
                antes[j].filas.deep_view(),
                indice_busqueda(clave),
                obj,
            );
            if m < 0 {
                despues == antes
            } else {
                &&& despues.len() == antes.len()
                &&& forall|x: int| 0 <= x < antes.len() && x != j ==> despues[x] == antes[x]
                &&& despues[j].clave@ == antes[j].clave@
                &&& despues[j].filas.deep_view() == antes[j].filas.deep_view().remove(m)
            }
        }
    }
}

/// What an update leaves of the store: with a well-formed two-part
/// restriction, every row of the keyed partition whose clustering cell
/// equals the second condition's right-hand side takes the assignments.
pub open spec fn actualizacion_aplica(
    antes: Seq<Particion>,
    despues: Seq<Particion>,
    c1: Seq<char>,
    c2: Seq<char>,
    cambios: Seq<char>,
    headers: Seq<Seq<char>>,
) -> bool {
    let p1 = dividir(c1, " = "@);
    let p2 = dividir(c2, " = "@);
    if p1.len() < 2 || p2.len() < 2 {
        despues == antes
    } else {
        let clave = p1[1];
        let obj = p2[1];
        let j = indice_particion(antes, clave);
        if j < 0 {
            despues == antes
        } else {
            let idx = indice_busqueda(clave);
            let filas = antes[j].filas.deep_view();
            &&& despues.len() == antes.len()
            &&& forall|x: int| 0 <= x < antes.len() && x != j ==> despues[x] == antes[x]
            &&& despues[j].clave@ == antes[j].clave@
            &&& despues[j].filas.deep_view().len() == filas.len()
            &&& forall|f: int|
                0 <= f < filas.len() ==> despues[j].filas.deep_view()[f] == (if celdas(
                    #[trigger] filas[f],
                ).len() > idx && celdas(filas[f])[idx] == obj {
                    aplicar_asignaciones(filas[f], cambios, headers)
                } else {
                    filas[f]
                })
        }
    }
}

/// What an insert leaves of a table: the row joins its partition's
/// multiset unless that partition already held it.
pub open spec fn insercion_aplica(antes: Tabla, despues: Tabla, row: Seq<char>) -> bool {
    &&& despues.nombre == antes.nombre
    &&& despues.headers == antes.headers
    &&& antes.fila_presente(celdas(row)[0], row) ==> despues.datos@ == antes.datos@
    &&& !antes.fila_presente(celdas(row)[0], row) ==> filas_planas(
        despues.datos@,
    ).to_multiset() == filas_planas(antes.datos@).to_multiset().insert(row)
}

/// Flattening one more partition appends its rows.
pub proof fn lema_filas_planas_extiende(datos: Seq<Particion>, p: Particion)
    ensures
        filas_planas(datos.push(p)) == filas_planas(datos) + p.filas.deep_view(),
    decreases datos.len(),
{
    if datos.len() == 0 {
        assert(datos.push(p).drop_first() =~= Seq::<Particion>::empty());
        assert(datos.push(p)[0] == p);
        assert(filas_planas(Seq::<Particion>::empty()) =~~= Seq::<Seq<char>>::empty());
        assert(datos =~= Seq::<Particion>::empty());
        assert(filas_planas(datos.push(p)) =~~= filas_planas(datos) + p.filas.deep_view());
    } else {
        lema_filas_planas_extiende(datos.drop_first(), p);
        assert(datos.push(p).drop_first() =~= datos.drop_first().push(p));
        assert(datos.push(p)[0] == datos[0]);
        assert(datos[0].filas.deep_view() + (filas_planas(datos.drop_first())
            + p.filas.deep_view()) =~~= (datos[0].filas.deep_view() + filas_planas(
            datos.drop_first(),
        )) + p.filas.deep_view());
    }
}

/// A projection token, cleaned: trimmed and stripped of grouping marks.
pub open spec fn limpiar_token(p: Seq<char>) -> Seq<char> {
    sin_estos(recortar(p), seq!['(', ')', ',', '"', '\'', '\n'])
}

/// The cleaned, non-empty projection tokens of a column list.
pub open spec fn tokens_columnas(piezas: Seq<Seq<char>>) -> Seq<Seq<char>>
    decreases piezas.len(),
{
    if piezas.len() == 0 {
        Seq::empty()
    } else {
        tokens_columnas(piezas.drop_last()) + (if piezas.last().len() > 0 {
            seq![limpiar_token(piezas.last())]
        } else {
            Seq::empty()
        })
    }
}

/// The header positions one token selects: all of them under `*`, else
/// each position whose header equals the token.
pub open spec fn indices_token(headers: Seq<Seq<char>>, e: Seq<char>, todas: bool) -> Seq<int>
    decreases headers.len(),
{
    if headers.len() == 0 {
        Seq::empty()
    } else {
        indices_token(headers.drop_last(), e, todas) + (if todas || headers.last() == e {
            seq![headers.len() - 1]
        } else {
            Seq::empty()
        })
    }
}

/// The header positions a token list selects, token by token; a token
/// that names no header selects nothing.
pub open spec fn indices_de_columnas(
    colums: Seq<Seq<char>>,
    headers: Seq<Seq<char>>,
    todas: bool,
) -> Seq<int>
    decreases colums.len(),
{
    if colums.len() == 0 {
        Seq::empty()
    } else {
        indices_de_columnas(colums.drop_last(), headers, todas) + (if todas || headers.contains(
            colums.last(),
        ) {
            indices_token(headers, colums.last(), todas)
        } else {
            Seq::empty()
        })
    }
}

/// The header positions a whole column list selects.
pub open spec fn indices_de_consulta(consulta: Seq<char>, headers: Seq<Seq<char>>) -> Seq<int> {
    let toks = tokens_columnas(dividir(consulta, seq![',']));
    let todas = toks.len() == 1 && toks[0] == seq!['*'];
    indices_de_columnas(toks, headers, todas)
}

/// The cells a position list picks from a row's cells; positions beyond
/// the row are skipped.
pub open spec fn tomar_celdas(cels: Seq<Seq<char>>, idxs: Seq<int>) -> Seq<Seq<char>>
    decreases idxs.len(),
{
    if idxs.len() == 0 {
        Seq::empty()
    } else {
        tomar_celdas(cels, idxs.drop_last()) + (if 0 <= idxs.last() < cels.len() {
            seq![cels[idxs.last()]]
        } else {
            Seq::empty()
        })
    }
}

/// Cell lists projected and joined back into comma-separated rows.
pub open spec fn proyectar_filas(lista: Seq<Seq<Seq<char>>>, idxs: Seq<int>) -> Seq<Seq<char>>
    decreases lista.len(),
{
    if lista.len() == 0 {
        Seq::empty()
    } else {
        proyectar_filas(lista.drop_last(), idxs) + seq![
            unir(tomar_celdas(lista.last(), idxs), seq![',']),
        ]
    }
}

/// The rows that pass the restriction, as cell lists; an empty first
/// condition passes every row.
pub open spec fn filtrar_filas(
    filas: Seq<Seq<char>>,
    c1: Seq<char>,
    c2: Seq<char>,
    headers: Seq<Seq<char>>,
) -> Seq<Seq<Seq<char>>>
    decreases filas.len(),
{
    if filas.len() == 0 {
        Seq::empty()
    } else {
        filtrar_filas(filas.drop_last(), c1, c2, headers) + (if c1.len() == 0
            || cumple_condiciones(c1, c2, celdas(filas.last()), headers) {
            seq![celdas(filas.last())]
        } else {
            Seq::empty()
        })
    }
}

/// What a select returns: the store's rows in order, filtered by the
/// restriction, projected onto the columns the list names, re-joined.
pub open spec fn seleccion(
    datos: Seq<Particion>,
    headers: Seq<Seq<char>>,
    c1: Seq<char>,
    c2: Seq<char>,
    consulta: Seq<char>,
) -> Seq<Seq<char>> {
    proyectar_filas(
        filtrar_filas(filas_planas(datos), c1, c2, headers),
        indices_de_consulta(consulta, headers),
    )
}

/// The positions a projection list selects among the table's columns.
#[verifier::loop_isolation(false)]
pub fn obtener_indices_y_nombres_columnas(colums: &Vec<String>, c_tabla: &Vec<String>) -> (r: Vec<
    usize,
>)
    ensures
        r@.map(|_i: int, v: usize| v as int) == indices_de_columnas(
            colums.deep_view(),
            c_tabla.deep_view(),
            colums.deep_view().len() == 1 && colums.deep_view()[0] == seq!['*'],
        ),
{
    let mut todas = false;
    if colums.len() == 1 {
        let estrella = chars_de_cadena(colums[0].as_str());
        proof {
            assert(colums.deep_view()[0] == colums@[0]@);
        }
        if estrella.len() == 1 && estrella[0] == '*' {
            todas = true;
            proof {
                assert(colums.deep_view()[0] =~= seq!['*']);
            }
        } else {
            proof {
                if colums.deep_view()[0] == seq!['*'] {
                    assert(estrella@.len() == 1 && estrella@[0] == '*');
                }
            }
        }
    }
    let ghost todas_espec = colums.deep_view().len() == 1 && colums.deep_view()[0] == seq!['*'];
    proof {
        assert(todas == todas_espec);
    }
    let mut r: Vec<usize> = Vec::new();
    let mut k: usize = 0;
    while k < colums.len()
        invariant
            0 <= k <= colums@.len(),
            todas == todas_espec,
            r@.map(|_i: int, v: usize| v as int) == indices_de_columnas(
                colums.deep_view().subrange(0, k as int),
                c_tabla.deep_view(),
                todas_espec,
            ),
        decreases colums@.len() - k,
    {
        let ghost pref = colums.deep_view().subrange(0, k as int);
        proof {
            assert(colums.deep_view().subrange(0, k + 1 as int).drop_last() =~~= pref);
            assert(colums.deep_view().subrange(0, k + 1 as int).last()
                == colums.deep_view()[k as int]);
            assert(colums.deep_view()[k as int] == colums@[k as int]@);
        }
        let mut esta = false;
        let mut j: usize = 0;
        while j < c_tabla.len()
            invariant
                0 <= j <= c_tabla@.len(),
                k < colums@.len(),
                esta <==> exists|g: int|
                    0 <= g < j && c_tabla.deep_view()[g] == colums.deep_view()[k as int],
            decreases c_tabla@.len() - j,
        {
            proof {
                assert(c_tabla.deep_view()[j as int] == c_tabla@[j as int]@);
            }
            if c_tabla[j] == colums[k] {
                esta = true;
            }
            j += 1;
        }
        proof {
            assert(esta == c_tabla.deep_view().contains(colums.deep_view()[k as int]));
        }
        if esta || todas {
            let colum_chars = chars_de_cadena(colums[k].as_str());
            let mut idx: usize = 0;
            let ghost antes = r@;
            while idx < c_tabla.len()
                invariant
                    0 <= idx <= c_tabla@.len(),
                    k < colums@.len(),
                    todas == todas_espec,
                    colum_chars@ == colums.deep_view()[k as int],
                    r@.map(|_i: int, v: usize| v as int) == antes.map(|_i: int, v: usize| v as int)
                        + indices_token(
                        c_tabla.deep_view().subrange(0, idx as int),
                        colums.deep_view()[k as int],
                        todas_espec,
                    ),
                decreases c_tabla@.len() - idx,
            {
                let ghost hpref = c_tabla.deep_view().subrange(0, idx as int);
                proof {
                    assert(c_tabla.deep_view().subrange(0, idx + 1 as int).drop_last()
                        =~~= hpref);
                    assert(c_tabla.deep_view().subrange(0, idx + 1 as int).last()
                        == c_tabla.deep_view()[idx as int]);
                    assert(c_tabla.deep_view()[idx as int] == c_tabla@[idx as int]@);
                }
                let header_chars = chars_de_cadena(c_tabla[idx].as_str());
                let ghost r_antes = r@;
                if todas || textos_iguales(&header_chars, &colum_chars) {
                    r.push(idx);
                    proof {
                        let ghost m = |_i: int, v: usize| v as int;
                        assert(r@.map(m) =~= r_antes.map(m).push(idx as int));
                        assert(indices_token(
                            c_tabla.deep_view().subrange(0, idx + 1 as int),
                            colums.deep_view()[k as int],
                            todas_espec,
                        ) =~= indices_token(hpref, colums.deep_view()[k as int], todas_espec)
                            + seq![idx as int]);
                        assert(r@.map(m) =~= antes.map(m) + indices_token(
                            c_tabla.deep_view().subrange(0, idx + 1 as int),
                            colums.deep_view()[k as int],
                            todas_espec,
                        ));
                    }
                } else {
                    proof {
                        assert(r@.map(|_i: int, v: usize| v as int) =~= antes.map(
                            |_i: int, v: usize| v as int,
                        ) + indices_token(
                            c_tabla.deep_view().subrange(0, idx + 1 as int),
                            colums.deep_view()[k as int],
                            todas_espec,
                        ));
                    }
                }
                idx += 1;
            }
            proof {
                assert(c_tabla.deep_view().subrange(0, c_tabla.deep_view().len() as int)
                    =~~= c_tabla.deep_view());
                assert(r@.map(|_i: int, v: usize| v as int) =~= indices_de_columnas(
                    colums.deep_view().subrange(0, k + 1 as int),
                    c_tabla.deep_view(),
                    todas_espec,
                ));
            }
        } else {
            proof {
                assert(r@.map(|_i: int, v: usize| v as int) =~= indices_de_columnas(
                    colums.deep_view().subrange(0, k + 1 as int),
                    c_tabla.deep_view(),
                    todas_espec,
                ));
            }
        }
        k += 1;
    }
    proof {
        assert(colums.deep_view().subrange(0, colums.deep_view().len() as int)
            =~~= colums.deep_view());
    }
    r
}

/// The cleaned projection tokens of a column list, then their positions.
#[verifier::loop_isolation(false)]
pub fn detectar_columnas(c_tabla: &Vec<String>, columnas_query: &str) -> (r: Vec<usize>)
    ensures
        r@.map(|_i: int, v: usize| v as int) == indices_de_consulta(
            columnas_query@,
            c_tabla.deep_view(),
        ),
{
    let q = chars_de_cadena(columnas_query);
    let coma: Vec<char> = vec![','];
    proof {
        assert(coma@ =~= seq![',']);
    }
    let piezas = dividir_texto(&q, &coma);
    let malos: Vec<char> = vec!['(', ')', ',', '"', '\'', '\n'];
    proof {
        assert(malos@ =~= seq!['(', ')', ',', '"', '\'', '\n']);
    }
    let mut colums: Vec<String> = Vec::new();
    let mut k: usize = 0;
    while k < piezas.len()
        invariant
            0 <= k <= piezas@.len(),
            malos@ == seq!['(', ')', ',', '"', '\'', '\n'],
            colums.deep_view() == tokens_columnas(piezas.deep_view().subrange(0, k as int)),
        decreases piezas@.len() - k,
    {
        let ghost pref = piezas.deep_view().subrange(0, k as int);
        proof {
            assert(piezas.deep_view().subrange(0, k + 1 as int).drop_last() =~~= pref);
            assert(piezas.deep_view().subrange(0, k + 1 as int).last()
                == piezas.deep_view()[k as int]);
            assert(piezas.deep_view()[k as int] == piezas@[k as int]@);
        }
        if piezas[k].len() > 0 {
            let limpio = quitar_caracteres(&recortar_texto(&piezas[k]), &malos);
            colums.push(cadena_de_chars(&limpio));
            proof {
                assert(colums.deep_view() =~~= tokens_columnas(pref) + seq![
                    limpiar_token(piezas.deep_view()[k as int]),
                ]);
            }
        }
        k += 1;
    }
    proof {
        assert(piezas.deep_view().subrange(0, piezas.deep_view().len() as int)
            =~~= piezas.deep_view());
    }
    obtener_indices_y_nombres_columnas(&colums, c_tabla)
}

/// Project each cell list onto the given positions and join with commas.
#[verifier::loop_isolation(false)]
pub fn imprimir_lineas(indices_colums: &Vec<usize>, lineas: &Vec<Vec<String>>) -> (r: Vec<String>)
    ensures
        r.deep_view() == proyectar_filas(
            lineas.deep_view(),
            indices_colums@.map(|_i: int, v: usize| v as int),
        ),
{
    let ghost idxs = indices_colums@.map(|_i: int, v: usize| v as int);
    let coma: Vec<char> = vec![','];
    proof {
        assert(coma@ =~= seq![',']);
    }
    let mut r: Vec<String> = Vec::new();
    let mut f: usize = 0;
    while f < lineas.len()
        invariant
            0 <= f <= lineas@.len(),
            idxs == indices_colums@.map(|_i: int, v: usize| v as int),
            coma@ == seq![','],
            r.deep_view() == proyectar_filas(lineas.deep_view().subrange(0, f as int), idxs),
        decreases lineas@.len() - f,
    {
        let ghost pref = lineas.deep_view().subrange(0, f as int);
        proof {
            assert(lineas.deep_view().subrange(0, f + 1 as int).drop_last() =~~= pref);
            assert(lineas.deep_view().subrange(0, f + 1 as int).last()
                == lineas.deep_view()[f as int]);
        }
        let fila = &lineas[f];
        let mut tomadas: Vec<Vec<char>> = Vec::new();
        let mut x: usize = 0;
        while x < indices_colums.len()
            invariant
                0 <= x <= indices_colums@.len(),
                f < lineas@.len(),
                idxs == indices_colums@.map(|_i: int, v: usize| v as int),
                fila == lineas@[f as int],
                tomadas.deep_view() == tomar_celdas(
                    lineas.deep_view()[f as int],
                    idxs.subrange(0, x as int),
                ),
            decreases indices_colums@.len() - x,
        {
            let ghost ipref = idxs.subrange(0, x as int);
            proof {
                assert(idxs.subrange(0, x + 1 as int).drop_last() =~~= ipref);
                assert(idxs.subrange(0, x + 1 as int).last() == idxs[x as int]);
            }
            let i = indices_colums[x];
            if i < fila.len() {
                proof {
                    assert(lineas.deep_view()[f as int][i as int] == lineas@[f as int]@[i as int]@);
                }
                let celda = chars_de_cadena(fila[i].as_str());
                tomadas.push(celda);
                proof {
                    assert(tomadas.deep_view() =~~= tomar_celdas(
                        lineas.deep_view()[f as int],
                        ipref,
                    ) + seq![lineas.deep_view()[f as int][idxs[x as int]]]);
                }
            } else {
                proof {
                    assert(lineas.deep_view()[f as int].len() == lineas@[f as int]@.len());
                    assert(tomadas.deep_view() =~~= tomar_celdas(
                        lineas.deep_view()[f as int],
                        idxs.subrange(0, x + 1 as int),
                    ));
                }
            }
            x += 1;
        }
        proof {
            assert(idxs.subrange(0, idxs.len() as int) =~~= idxs);
        }
        let unida = unir_texto(&tomadas, &coma);
        r.push(cadena_de_chars(&unida));
        proof {
            assert(r.deep_view() =~~= proyectar_filas(pref, idxs) + seq![
                unir(tomar_celdas(lineas.deep_view()[f as int], idxs), seq![',']),
            ]);
            assert(r.deep_view() =~~= proyectar_filas(
                lineas.deep_view().subrange(0, f + 1 as int),
                idxs,
            ));
        }
        f += 1;
    }
    proof {
        assert(lineas.deep_view().subrange(0, lineas.deep_view().len() as int)
            =~~= lineas.deep_view());
    }
    r
}

/// Two partition vectors with the same keys at the same places index alike.
proof fn lema_indice_mismas_claves(a: Seq<Particion>, b: Seq<Particion>, k: Seq<char>)
    requires
        a.len() == b.len(),
        forall|i: int| 0 <= i < a.len() ==> a[i].clave@ == b[i].clave@,
    ensures
        forall|kk: Seq<char>| indice_particion(a, kk) == indice_particion(b, kk),
    decreases a.len(),
{
    if a.len() > 0 {
        lema_indice_mismas_claves(a.drop_first(), b.drop_first(), k);
        assert forall|kk: Seq<char>| indice_particion(a, kk) == indice_particion(b, kk) by {
            assert(indice_particion(a.drop_first(), kk) == indice_particion(b.drop_first(), kk));
        }
    }
}

} // verus!
