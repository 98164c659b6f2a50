//! The statement parser: one CQL-like statement per call, recognised by
//! its leading keyword and decomposed into a [`Consulta`].

use crate::cadena::{cadena_de_chars, chars_de_cadena};
use crate::parser_cql::condicion_where::CondicionWhere;
use crate::parser_cql::consulta::Consulta;
use crate::parser_cql::type_cql::TypeCQL;
use crate::texto::{
    buscar, contiene, dividir, dividir_texto, lema_dividir_no_vacio, lema_primera_ocurrencia,
    mayusculas, mayusculas_de, ocurre_en, palabras, palabras_de, primera_ocurrencia,
    quitar_caracteres, recortar, recortar_texto, sin_estos, subvec, textos_iguales, unir,
    unir_texto,
};
use vstd::prelude::*;

verus! {

/// Position of the first occurrence of `pat`, or 0 when absent: the
/// fallback the parser uses for optional anchors.
pub open spec fn indice_o_cero(s: Seq<char>, pat: Seq<char>) -> int {
    if primera_ocurrencia(s, pat) >= 0 {
        primera_ocurrencia(s, pat)
    } else {
        0
    }
}

/// First position of the word `w` among `ws`, or 0 when absent.
pub open spec fn indice_palabra_o_cero(ws: Seq<Seq<char>>, w: Seq<char>) -> int
    decreases ws.len(),
{
    if ws.len() == 0 {
        0
    } else if ws[0] == w {
        0
    } else {
        let r = indice_palabra_o_cero(ws.drop_first(), w);
        if r == 0 && (ws.len() == 1 || ws.drop_first()[0] != w) && !ws.drop_first().contains(w) {
            0
        } else {
            1 + r
        }
    }
}

/// The word at position `i`, or empty text beyond the end.
pub open spec fn palabra_en(ws: Seq<Seq<char>>, i: int) -> Seq<char> {
    if 0 <= i < ws.len() {
        ws[i]
    } else {
        Seq::empty()
    }
}

/// The restriction clause read from the text after the first `WHERE`:
/// the first condition before any `AND`, the second after it.
pub open spec fn condiciones_de(s: Seq<char>) -> (Seq<char>, Option<Seq<char>>, Seq<char>) {
    if contiene(s, "WHERE"@) {
        let x = dividir(s, "WHERE"@);
        let y = dividir(x[1], "AND"@);
        if y.len() > 1 {
            (recortar(y[0]), Some("AND"@), recortar(y[1]))
        } else {
            (recortar(y[0]), None, Seq::empty())
        }
    } else {
        (Seq::empty(), None, Seq::empty())
    }
}

/// Whether a parsed clause equals the triple `condiciones_de` reads.
pub open spec fn clausula_correcta(c: CondicionWhere, s: Seq<char>) -> bool {
    let (c1, op, c2) = condiciones_de(s);
    &&& c.condicion1@ == c1
    &&& c.condicion2@ == c2
    &&& match (c.operador_logico, op) {
        (Some(a), Some(b)) => a@ == b,
        (None, None) => true,
        _ => false,
    }
}

/// Read the restriction clause of a statement.
pub fn leer_condiciones(s: &Vec<char>) -> (r: CondicionWhere)
    ensures
        clausula_correcta(r, s@),
{
    let donde: Vec<char> = vec!['W', 'H', 'E', 'R', 'E'];
    let y_palabra: Vec<char> = vec!['A', 'N', 'D'];
    proof {
        reveal_strlit("WHERE");
        reveal_strlit("AND");
        assert(donde@ =~= "WHERE"@);
        assert(y_palabra@ =~= "AND"@);
    }
    match buscar(s, &donde) {
        Some(pos) => {
            proof {
                lema_primera_ocurrencia(s@, "WHERE"@);
                assert(ocurre_en(s@, "WHERE"@, pos as int));
                lema_dividir_no_vacio(
                    s@.subrange(pos + "WHERE"@.len(), s@.len() as int),
                    "WHERE"@,
                );
                assert(dividir(s@, "WHERE"@).len() >= 2);
            }
            let x = dividir_texto(s, &donde);
            proof {
                assert(x@.len() == x.deep_view().len());
                assert(x.deep_view()[1] == x@[1]@);
                lema_dividir_no_vacio(x.deep_view()[1], "AND"@);
            }
            let y = dividir_texto(&x[1], &y_palabra);
            proof {
                assert(y@.len() == y.deep_view().len());
                assert(y.deep_view()[0] == y@[0]@);
            }
            let c1 = recortar_texto(&y[0]);
            if y.len() > 1 {
                proof {
                    assert(y.deep_view()[1] == y@[1]@);
                }
                let c2 = recortar_texto(&y[1]);
                let op: Vec<char> = vec!['A', 'N', 'D'];
                proof {
                    assert(op@ =~= "AND"@);
                }
                CondicionWhere {
                    condicion1: cadena_de_chars(&c1),
                    operador_logico: Some(cadena_de_chars(&op)),
                    condicion2: cadena_de_chars(&c2),
                }
            } else {
                CondicionWhere {
                    condicion1: cadena_de_chars(&c1),
                    operador_logico: None,
                    condicion2: String::new(),
                }
            }
        },
        None => {
            proof {
                lema_primera_ocurrencia(s@, "WHERE"@);
                if contiene(s@, "WHERE"@) {
                    let i = choose|i: int| ocurre_en(s@, "WHERE"@, i);
                    assert(false);
                }
            }
            CondicionWhere::vacia()
        },
    }
}

/// First position of the word `w`, or 0: executable form.
#[verifier::loop_isolation(false)]
pub fn buscar_palabra_o_cero(ws: &Vec<Vec<char>>, w: &Vec<char>) -> (r: usize)
    ensures
        r == indice_palabra_o_cero(ws.deep_view(), w@),
{
    proof {
        lema_indice_palabra(ws.deep_view(), w@);
    }
    let mut i: usize = 0;
    while i < ws.len()
        invariant
            0 <= i <= ws@.len(),
            forall|k: int| 0 <= k < i ==> ws.deep_view()[k] != w@,
        decreases ws@.len() - i,
    {
        proof {
            assert(ws.deep_view()[i as int] == ws@[i as int]@);
        }
        if textos_iguales(&ws[i], w) {
            proof {
                let r = indice_palabra_o_cero(ws.deep_view(), w@);
                if ws.deep_view().contains(w@) {
                    if r < i {
                        assert(ws.deep_view()[r] == w@);
                    }
                    if r > i {
                        assert(ws.deep_view()[i as int] != w@);
                    }
                }
                if !ws.deep_view().contains(w@) {
                    assert(ws.deep_view()[i as int] == w@);
                }
            }
            return i;
        }
        i += 1;
    }
    proof {
        if ws.deep_view().contains(w@) {
            let j = choose|j: int| 0 <= j < ws.deep_view().len() && ws.deep_view()[j] == w@;
            assert(false);
        }
    }
    0
}

/// `indice_palabra_o_cero` is the first position of the word when the
/// word occurs, and 0 otherwise.
pub proof fn lema_indice_palabra(ws: Seq<Seq<char>>, w: Seq<char>)
    ensures
        !ws.contains(w) ==> indice_palabra_o_cero(ws, w) == 0,
        ws.contains(w) ==> {
            &&& 0 <= indice_palabra_o_cero(ws, w) < ws.len()
            &&& ws[indice_palabra_o_cero(ws, w)] == w
            &&& forall|i: int| 0 <= i < indice_palabra_o_cero(ws, w) ==> ws[i] != w
        },
    decreases ws.len(),
{
    if ws.len() > 0 && ws[0] != w {
        lema_indice_palabra(ws.drop_first(), w);
        assert(ws.drop_first() =~~= ws.subrange(1, ws.len() as int));
        if ws.contains(w) {
            let j = choose|j: int| 0 <= j < ws.len() && ws[j] == w;
            assert(ws.drop_first()[j - 1] == w);
            assert(ws.drop_first().contains(w));
            let r = indice_palabra_o_cero(ws.drop_first(), w);
            assert(ws.drop_first()[r] == ws[r + 1]);
            assert forall|i: int| 0 <= i < r + 1 implies ws[i] != w by {
                if i >= 1 {
                    assert(ws.drop_first()[i - 1] == ws[i]);
                }
            }
        } else {
            assert forall|x: Seq<char>| ws.drop_first().contains(x) implies ws.contains(x) by {
                let j = choose|j: int|
                    0 <= j < ws.drop_first().len() && ws.drop_first()[j] == x;
                assert(ws[j + 1] == x);
            }
            assert(!ws.drop_first().contains(w));
        }
    }
}

/// The words between positions `desde` and `hasta`, joined with spaces;
/// an ill-ordered range joins to empty text.
pub open spec fn unir_rango(ws: Seq<Seq<char>>, desde: int, hasta: int) -> Seq<char> {
    if 0 <= desde <= hasta <= ws.len() {
        unir(ws.subrange(desde, hasta), seq![' '])
    } else {
        Seq::empty()
    }
}

/// Join the words from position `i` on with single spaces.
pub open spec fn unir_desde(ws: Seq<Seq<char>>, i: int) -> Seq<char> {
    unir_rango(ws, i, ws.len() as int)
}

/// Join a word range with single spaces, executably.
#[verifier::loop_isolation(false)]
pub fn unir_rango_de(ws: &Vec<Vec<char>>, desde: usize, hasta: usize) -> (r: Vec<char>)
    ensures
        r@ == unir_rango(ws.deep_view(), desde as int, hasta as int),
{
    let espacio: Vec<char> = vec![' '];
    if desde > hasta || hasta > ws.len() {
        let r: Vec<char> = Vec::new();
        return r;
    }
    let mut cola: Vec<Vec<char>> = Vec::new();
    let mut k: usize = desde;
    while k < hasta
        invariant
            desde <= k <= hasta <= ws@.len(),
            cola.deep_view() == ws.deep_view().subrange(desde as int, k as int),
        decreases hasta - k,
    {
        let pieza = subvec(&ws[k], 0, ws[k].len());
        proof {
            assert(pieza@ =~= ws.deep_view()[k as int]);
        }
        cola.push(pieza);
        proof {
            assert(cola.deep_view() =~~= ws.deep_view().subrange(desde as int, k + 1 as int));
        }
        k += 1;
    }
    let r = unir_texto(&cola, &espacio);
    proof {
        assert(espacio@ =~= seq![' ']);
    }
    r
}

/// Copy of the word at position `i`; empty beyond the end.
pub fn palabra_copia(ws: &Vec<Vec<char>>, i: usize) -> (r: Vec<char>)
    ensures
        r@ == palabra_en(ws.deep_view(), i as int),
{
    if i < ws.len() {
        let r = subvec(&ws[i], 0, ws[i].len());
        proof {
            assert(r@ =~= ws.deep_view()[i as int]);
        }
        r
    } else {
        let r: Vec<char> = Vec::new();
        r
    }
}

/// What the fields of a parsed statement must hold, by statement kind.
pub open spec fn consulta_correcta(c: Consulta, s: Seq<char>) -> bool {
    let ws = palabras(s);
    &&& c.consulta_explicita@ == s
    &&& match c.tipo {
        TypeCQL::Select => {
            let fi = indice_palabra_o_cero(ws, "FROM"@);
            &&& c.tabla@ == palabra_en(ws, fi + 1)
            &&& c.query@ == (if fi >= 1 {
                unir_rango(ws, 1, fi)
            } else {
                Seq::<char>::empty()
            })
            &&& clausula_correcta(c.condicion_where, s)
        },
        TypeCQL::Insert => {
            let a = indice_o_cero(s, "("@);
            let b = indice_o_cero(s, ")"@);
            let v = indice_o_cero(s, "VALUES"@) + 6;
            &&& c.tabla@ == palabra_en(ws, 2)
            &&& c.query@ == (if a <= b && b + 1 <= s.len() {
                s.subrange(a, b + 1)
            } else {
                Seq::<char>::empty()
            }) + seq![' '] + "VALUES"@ + seq![' '] + (if v <= s.len() {
                recortar(s.subrange(v, s.len() as int))
            } else {
                Seq::<char>::empty()
            })
            &&& c.condicion_where.condicion1@ == Seq::<char>::empty()
            &&& c.condicion_where.operador_logico is None
            &&& c.condicion_where.condicion2@ == Seq::<char>::empty()
        },
        TypeCQL::Update => {
            let mitades = dividir(s, "WHERE"@);
            let esp = palabras(mitades[0]);
            &&& c.tabla@ == palabra_en(esp, 1)
            &&& c.query@ == (if esp.len() >= 3 {
                unir_desde(esp, 3)
            } else {
                Seq::<char>::empty()
            })
            &&& clausula_correcta(c.condicion_where, s)
        },
        TypeCQL::Delete => {
            &&& c.tabla@ == palabra_en(ws, 2)
            &&& c.query@ == Seq::<char>::empty()
            &&& clausula_correcta(c.condicion_where, s)
        },
        TypeCQL::CreateTable => {
            &&& c.tabla@ == palabra_en(ws, 2)
            &&& c.query@ == unir_desde(ws, 3)
            &&& c.condicion_where.condicion1@ == Seq::<char>::empty()
            &&& c.condicion_where.operador_logico is None
            &&& c.condicion_where.condicion2@ == Seq::<char>::empty()
        },
        TypeCQL::CreateKeyspace => {
            let oi = indice_palabra_o_cero(ws, "="@);
            &&& c.tabla@ == palabra_en(ws, 2)
            &&& c.query@ == unir_desde(ws, oi + 1)
            &&& c.condicion_where.condicion1@ == Seq::<char>::empty()
            &&& c.condicion_where.operador_logico is None
            &&& c.condicion_where.condicion2@ == Seq::<char>::empty()
        },
    }
}

/// Parse a SELECT statement: table after FROM, projection between the
/// verb and FROM, restriction after WHERE.
pub fn parsear_select(consulta_cql: &str) -> (r: Consulta)
    ensures
        r.tipo == TypeCQL::Select,
        consulta_correcta(r, consulta_cql@),
{
    let s = chars_de_cadena(consulta_cql);
    let ws = palabras_de(&s);
    let de: Vec<char> = vec!['F', 'R', 'O', 'M'];
    proof {
        reveal_strlit("FROM");
        assert(de@ =~= "FROM"@);
    }
    let fi = buscar_palabra_o_cero(&ws, &de);
    let n = ws.len();
    proof {
        lema_indice_palabra(ws.deep_view(), "FROM"@);
        assert(ws.deep_view().len() == ws@.len());
        assert(fi == 0 || fi < n);
    }
    let tabla = palabra_copia(&ws, fi + 1);
    let columnas: Vec<char> = if fi >= 1 {
        unir_rango_de(&ws, 1, fi)
    } else {
        Vec::new()
    };
    let condicion_where = leer_condiciones(&s);
    Consulta {
        consulta_explicita: cadena_de_chars(&s),
        tabla: cadena_de_chars(&tabla),
        tipo: TypeCQL::Select,
        query: cadena_de_chars(&columnas),
        condicion_where,
    }
}

/// Parse an INSERT statement: table after INTO, payload of column list,
/// the VALUES keyword and the value list.
pub fn parsear_insert(consulta_cql: &str) -> (r: Consulta)
    ensures
        r.tipo == TypeCQL::Insert,
        consulta_correcta(r, consulta_cql@),
{
    let s = chars_de_cadena(consulta_cql);
    let ws = palabras_de(&s);
    let tabla = palabra_copia(&ws, 2);
    let abre: Vec<char> = vec!['('];
    let cierra: Vec<char> = vec![')'];
    let valores_palabra: Vec<char> = vec!['V', 'A', 'L', 'U', 'E', 'S'];
    proof {
        reveal_strlit("(");
        reveal_strlit(")");
        reveal_strlit("VALUES");
        assert(abre@ =~= "("@);
        assert(cierra@ =~= ")"@);
        assert(valores_palabra@ =~= "VALUES"@);
    }
    proof {
        lema_primera_ocurrencia(s@, "("@);
        lema_primera_ocurrencia(s@, ")"@);
        lema_primera_ocurrencia(s@, "VALUES"@);
        if primera_ocurrencia(s@, "("@) >= 0 {
            assert(ocurre_en(s@, "("@, primera_ocurrencia(s@, "("@)));
        }
        if primera_ocurrencia(s@, ")"@) >= 0 {
            assert(ocurre_en(s@, ")"@, primera_ocurrencia(s@, ")"@)));
        }
        if primera_ocurrencia(s@, "VALUES"@) >= 0 {
            assert(ocurre_en(s@, "VALUES"@, primera_ocurrencia(s@, "VALUES"@)));
        }
    }
    let a: usize = match buscar(&s, &abre) {
        Some(i) => i,
        None => 0,
    };
    let b: usize = match buscar(&s, &cierra) {
        Some(i) => i,
        None => 0,
    };
    let ns = s.len();
    proof {
        assert(a == indice_o_cero(s@, "("@));
        assert(b == indice_o_cero(s@, ")"@));
        assert(b == 0 || b < ns);
    }
    let columnas: Vec<char> = if a <= b && b + 1 <= s.len() {
        subvec(&s, a, b + 1)
    } else {
        Vec::new()
    };
    let v: usize = match buscar(&s, &valores_palabra) {
        Some(i) => i + 6,
        None => 6,
    };
    proof {
        assert(v == indice_o_cero(s@, "VALUES"@) + 6);
    }
    let valores: Vec<char> = if v <= s.len() {
        recortar_texto(&subvec(&s, v, s.len()))
    } else {
        Vec::new()
    };
    let ghost col_vista = columnas@;
    let ghost val_vista = valores@;
    let mut q: Vec<char> = columnas;
    q.push(' ');
    let mut vp = valores_palabra;
    q.append(&mut vp);
    q.push(' ');
    let mut vv = valores;
    q.append(&mut vv);
    proof {
        assert(q@ =~= col_vista + seq![' '] + "VALUES"@ + seq![' '] + val_vista);
    }
    Consulta {
        consulta_explicita: cadena_de_chars(&s),
        tabla: cadena_de_chars(&tabla),
        tipo: TypeCQL::Insert,
        query: cadena_de_chars(&q),
        condicion_where: CondicionWhere::vacia(),
    }
}

/// Parse an UPDATE statement: table after the verb, assignments between
/// SET and WHERE, restriction after WHERE.
pub fn parsear_update(consulta_cql: &str) -> (r: Consulta)
    ensures
        r.tipo == TypeCQL::Update,
        consulta_correcta(r, consulta_cql@),
{
    let s = chars_de_cadena(consulta_cql);
    let donde: Vec<char> = vec!['W', 'H', 'E', 'R', 'E'];
    proof {
        reveal_strlit("WHERE");
        assert(donde@ =~= "WHERE"@);
    }
    let mitades = dividir_texto(&s, &donde);
    proof {
        lema_dividir_no_vacio(s@, "WHERE"@);
        assert(mitades.deep_view()[0] == mitades@[0]@);
    }
    let esp = palabras_de(&mitades[0]);
    let tabla = palabra_copia(&esp, 1);
    let q: Vec<char> = if esp.len() >= 3 {
        unir_rango_de(&esp, 3, esp.len())
    } else {
        Vec::new()
    };
    let condicion_where = leer_condiciones(&s);
    Consulta {
        consulta_explicita: cadena_de_chars(&s),
        tabla: cadena_de_chars(&tabla),
        tipo: TypeCQL::Update,
        query: cadena_de_chars(&q),
        condicion_where,
    }
}

/// Parse a DELETE statement: table after FROM, restriction after WHERE.
pub fn parsear_delete(consulta_cql: &str) -> (r: Consulta)
    ensures
        r.tipo == TypeCQL::Delete,
        consulta_correcta(r, consulta_cql@),
{
    let s = chars_de_cadena(consulta_cql);
    let ws = palabras_de(&s);
    let tabla = palabra_copia(&ws, 2);
    let condicion_where = leer_condiciones(&s);
    Consulta {
        consulta_explicita: cadena_de_chars(&s),
        tabla: cadena_de_chars(&tabla),
        tipo: TypeCQL::Delete,
        query: String::new(),
        condicion_where,
    }
}

/// Parse a CREATE TABLE statement: table name, then the column list.
pub fn parsear_create_table(consulta_cql: &str) -> (r: Consulta)
    ensures
        r.tipo == TypeCQL::CreateTable,
        consulta_correcta(r, consulta_cql@),
{
    let s = chars_de_cadena(consulta_cql);
    let ws = palabras_de(&s);
    let tabla = palabra_copia(&ws, 2);
    let q = unir_rango_de(&ws, 3, ws.len());
    proof {
        if ws.deep_view().len() < 3 {
            assert(unir_desde(ws.deep_view(), 3) == Seq::<char>::empty());
        }
    }
    Consulta {
        consulta_explicita: cadena_de_chars(&s),
        tabla: cadena_de_chars(&tabla),
        tipo: TypeCQL::CreateTable,
        query: cadena_de_chars(&q),
        condicion_where: CondicionWhere::vacia(),
    }
}

/// Parse a CREATE KEYSPACE statement: keyspace name, then the replication
/// options after the equals sign.
pub fn parsear_create_keyspace(consulta_cql: &str) -> (r: Consulta)
    ensures
        r.tipo == TypeCQL::CreateKeyspace,
        consulta_correcta(r, consulta_cql@),
{
    let s = chars_de_cadena(consulta_cql);
    let ws = palabras_de(&s);
    let igual: Vec<char> = vec!['='];
    proof {
        reveal_strlit("=");
        assert(igual@ =~= "="@);
    }
    let oi = buscar_palabra_o_cero(&ws, &igual);
    let n = ws.len();
    proof {
        lema_indice_palabra(ws.deep_view(), "="@);
        assert(ws.deep_view().len() == ws@.len());
        assert(oi == 0 || oi < n);
    }
    let tabla = palabra_copia(&ws, 2);
    let q = unir_rango_de(&ws, oi + 1, n);
    proof {
        if oi + 1 > ws.deep_view().len() {
            assert(unir_desde(ws.deep_view(), oi + 1) == Seq::<char>::empty());
        }
    }
    Consulta {
        consulta_explicita: cadena_de_chars(&s),
        tabla: cadena_de_chars(&tabla),
        tipo: TypeCQL::CreateKeyspace,
        query: cadena_de_chars(&q),
        condicion_where: CondicionWhere::vacia(),
    }
}

/// Whether `s` starts with `p`.
pub open spec fn empieza_con(s: Seq<char>, p: Seq<char>) -> bool {
    s.len() >= p.len() && s.subrange(0, p.len() as int) == p
}

/// The first word of `s`, or empty text.
pub open spec fn palabra_o_vacia(s: Seq<char>) -> Seq<char> {
    if palabras(s).len() > 0 {
        palabras(s)[0]
    } else {
        Seq::empty()
    }
}

/// The columns named inside a `PRIMARY KEY ((pk), ck)` field: the text
/// after the marker, split at commas, trimmed and unparenthesised.
pub open spec fn columnas_pk(c: Seq<char>) -> Seq<Seq<char>> {
    let nucleo = if c.len() >= 15 {
        c.subrange(14, c.len() - 1)
    } else {
        Seq::<char>::empty()
    };
    mapa_limpia_pk(dividir(nucleo, seq![',']))
}

/// Each primary-key column trimmed and stripped of parentheses.
pub open spec fn mapa_limpia_pk(ps: Seq<Seq<char>>) -> Seq<Seq<char>>
    decreases ps.len(),
{
    if ps.len() == 0 {
        Seq::empty()
    } else {
        mapa_limpia_pk(ps.drop_last()).push(sin_estos(recortar(ps.last()), seq!['(', ')']))
    }
}

/// The headers read from the comma-separated fields of a column list:
/// ordinary fields contribute their first word once; the primary-key
/// field contributes each column it names.
pub open spec fn campos_encabezados(campos: Seq<Seq<char>>) -> Seq<Seq<char>>
    decreases campos.len(),
{
    if campos.len() == 0 {
        Seq::empty()
    } else {
        let acc = campos_encabezados(campos.drop_last());
        let c = recortar(campos.last());
        if !empieza_con(c, "PRIMARY KEY"@) {
            let n = sin_estos(palabra_o_vacia(c), seq!['(', ')']);
            if acc.contains(n) {
                acc
            } else {
                acc.push(n)
            }
        } else {
            acc + columnas_pk(c)
        }
    }
}

/// Items appended to an accumulator, skipping those already present.
pub open spec fn agrega_sin_dup(acc: Seq<Seq<char>>, items: Seq<Seq<char>>) -> Seq<Seq<char>>
    decreases items.len(),
{
    if items.len() == 0 {
        acc
    } else {
        let prev = agrega_sin_dup(acc, items.drop_last());
        if prev.contains(items.last()) {
            prev
        } else {
            prev.push(items.last())
        }
    }
}

/// The headers with the last (the partition key) moved to the front,
/// duplicates dropped.
pub open spec fn al_inicio(hs: Seq<Seq<char>>) -> Seq<Seq<char>> {
    if hs.len() == 0 {
        Seq::empty()
    } else {
        agrega_sin_dup(seq![hs.last()], hs.subrange(0, hs.len() - 1))
    }
}

/// The header list of a CREATE TABLE payload, partition key first.
pub open spec fn encabezados_de(q: Seq<char>) -> Seq<Seq<char>> {
    let contenido = if q.len() >= 2 {
        q.subrange(1, q.len() - 1)
    } else {
        Seq::<char>::empty()
    };
    al_inicio(campos_encabezados(dividir(contenido, seq![','])))
}

/// Move the last header to the front, dropping duplicates.
#[verifier::loop_isolation(false)]
pub fn mover_al_inicio(headers: Vec<String>) -> (r: Vec<String>)
    ensures
        r.deep_view() == al_inicio(headers.deep_view()),
{
    let mut r: Vec<String> = Vec::new();
    if headers.len() == 0 {
        return r;
    }
    r.push(headers[headers.len() - 1].clone());
    proof {
        assert(r.deep_view() =~~= seq![headers.deep_view().last()]);
    }
    let mut i: usize = 0;
    let tope = headers.len() - 1;
    while i < tope
        invariant
            0 <= i <= tope,
            tope == headers@.len() - 1,
            r.deep_view() == agrega_sin_dup(
                seq![headers.deep_view().last()],
                headers.deep_view().subrange(0, tope as int).subrange(0, i as int),
            ),
        decreases tope - i,
    {
        let ghost pref = headers.deep_view().subrange(0, tope as int).subrange(0, i as int);
        proof {
            assert(headers.deep_view().subrange(0, tope as int).subrange(0, i + 1 as int)
                .drop_last() =~~= pref);
            assert(headers.deep_view().subrange(0, tope as int).subrange(0, i + 1 as int).last()
                == headers.deep_view()[i as int]);
            assert(headers.deep_view()[i as int] == headers@[i as int]@);
        }
        let mut esta = false;
        let mut j: usize = 0;
        while j < r.len()
            invariant
                0 <= j <= r@.len(),
                i < headers@.len(),
                esta <==> exists|g: int|
                    0 <= g < j && r.deep_view()[g] == headers.deep_view()[i as int],
            decreases r@.len() - j,
        {
            proof {
                assert(r.deep_view()[j as int] == r@[j as int]@);
            }
            if r[j] == headers[i] {
                esta = true;
            }
            j += 1;
        }
        proof {
            assert(esta == r.deep_view().contains(headers.deep_view()[i as int]));
        }
        if !esta {
            r.push(headers[i].clone());
        }
        i += 1;
    }
    proof {
        assert(headers.deep_view().subrange(0, tope as int).subrange(0, tope as int)
            =~~= headers.deep_view().subrange(0, headers.deep_view().len() - 1));
    }
    r
}

/// The header list of a CREATE TABLE payload, partition key first.
#[verifier::loop_isolation(false)]
pub fn obtener_headers_table(query: &str) -> (r: Vec<String>)
    ensures
        r.deep_view() == encabezados_de(query@),
{
    let q = chars_de_cadena(query);
    let contenido: Vec<char> = if q.len() >= 2 {
        subvec(&q, 1, q.len() - 1)
    } else {
        Vec::new()
    };
    let coma: Vec<char> = vec![','];
    let parens: Vec<char> = vec!['(', ')'];
    proof {
        assert(coma@ =~= seq![',']);
        assert(parens@ =~= seq!['(', ')']);
    }
    let campos = dividir_texto(&contenido, &coma);
    let marca: Vec<char> = vec![
        'P', 'R', 'I', 'M', 'A', 'R', 'Y', ' ', 'K', 'E', 'Y',
    ];
    proof {
        reveal_strlit("PRIMARY KEY");
        assert(marca@ =~= "PRIMARY KEY"@);
    }
    let mut headers: Vec<String> = Vec::new();
    let mut k: usize = 0;
    while k < campos.len()
        invariant
            0 <= k <= campos@.len(),
            coma@ == seq![','],
            parens@ == seq!['(', ')'],
            marca@ == "PRIMARY KEY"@,
            headers.deep_view() == campos_encabezados(
                campos.deep_view().subrange(0, k as int),
            ),
        decreases campos@.len() - k,
    {
        let ghost pref = campos.deep_view().subrange(0, k as int);
        proof {
            assert(campos.deep_view().subrange(0, k + 1 as int).drop_last() =~~= pref);
            assert(campos.deep_view().subrange(0, k + 1 as int).last()
                == campos.deep_view()[k as int]);
            assert(campos.deep_view()[k as int] == campos@[k as int]@);
        }
        let campo = recortar_texto(&campos[k]);
        let es_pk = if campo.len() >= marca.len() {
            crate::texto::coincide_en(&campo, &marca, 0)
        } else {
            false
        };
        proof {
            assert(es_pk == empieza_con(campo@, "PRIMARY KEY"@)) by {
                if campo@.len() >= "PRIMARY KEY"@.len() {
                    assert(crate::texto::ocurre_en(campo@, "PRIMARY KEY"@, 0)
                        == (campo@.subrange(0, 11) == "PRIMARY KEY"@));
                }
            }
        }
        if !es_pk {
            let ps = palabras_de(&campo);
            let primera = palabra_copia(&ps, 0);
            proof {
                assert(primera@ == palabra_o_vacia(campo@));
            }
            let limpia = quitar_caracteres(&primera, &parens);
            let limpia_cadena = cadena_de_chars(&limpia);
            let mut esta = false;
            let mut j: usize = 0;
            while j < headers.len()
                invariant
                    0 <= j <= headers@.len(),
                    limpia_cadena@ == limpia@,
                    esta <==> exists|g: int| 0 <= g < j && headers.deep_view()[g] == limpia@,
                decreases headers@.len() - j,
            {
                proof {
                    assert(headers.deep_view()[j as int] == headers@[j as int]@);
                }
                if headers[j] == limpia_cadena {
                    esta = true;
                }
                j += 1;
            }
            proof {
                assert(esta == headers.deep_view().contains(limpia@));
            }
            if !esta {
                headers.push(limpia_cadena);
            }
        } else {
            let nucleo: Vec<char> = if campo.len() >= 15 {
                subvec(&campo, 14, campo.len() - 1)
            } else {
                Vec::new()
            };
            let cols = dividir_texto(&nucleo, &coma);
            let mut x: usize = 0;
            let ghost antes = headers.deep_view();
            while x < cols.len()
                invariant
                    0 <= x <= cols@.len(),
                    parens@ == seq!['(', ')'],
                    headers.deep_view() == antes + mapa_limpia_pk(
                        cols.deep_view().subrange(0, x as int),
                    ),
                decreases cols@.len() - x,
            {
                let ghost cpref = cols.deep_view().subrange(0, x as int);
                proof {
                    assert(cols.deep_view().subrange(0, x + 1 as int).drop_last() =~~= cpref);
                    assert(cols.deep_view().subrange(0, x + 1 as int).last()
                        == cols.deep_view()[x as int]);
                    assert(cols.deep_view()[x as int] == cols@[x as int]@);
                }
                let col = quitar_caracteres(&recortar_texto(&cols[x]), &parens);
                let ghost h_antes = headers.deep_view();
                headers.push(cadena_de_chars(&col));
                proof {
                    assert(headers.deep_view() =~~= h_antes.push(col@));
                    assert(mapa_limpia_pk(cols.deep_view().subrange(0, x + 1 as int))
                        =~~= mapa_limpia_pk(cpref).push(
                        sin_estos(recortar(cols.deep_view()[x as int]), seq!['(', ')']),
                    ));
                    assert(headers.deep_view() =~~= antes + mapa_limpia_pk(
                        cols.deep_view().subrange(0, x + 1 as int),
                    ));
                }
                x += 1;
            }
            proof {
                assert(cols.deep_view().subrange(0, cols.deep_view().len() as int)
                    =~~= cols.deep_view());
                assert(headers.deep_view() =~~= campos_encabezados(
                    campos.deep_view().subrange(0, k + 1 as int),
                ));
            }
        }
        k += 1;
    }
    proof {
        assert(campos.deep_view().subrange(0, campos.deep_view().len() as int)
            =~~= campos.deep_view());
    }
    mover_al_inicio(headers)
}

/// The strategy name in a keyspace's replication options.
pub open spec fn estrategia_de(q: Seq<char>) -> Seq<char> {
    let splited = dividir(q, seq![',']);
    let clase = dividir(splited[0], seq![':']);
    if clase.len() >= 2 {
        sin_estos(recortar(clase[1]), seq!['\''])
    } else {
        Seq::empty()
    }
}

/// The replication factor in a keyspace's replication options; anything
/// unreadable counts as 1.
pub open spec fn replicacion_de(q: Seq<char>) -> int {
    let splited = dividir(q, seq![',']);
    if splited.len() >= 2 {
        let rep = dividir(splited[1], seq![':']);
        if rep.len() >= 2 {
            let t = sin_estos(recortar(rep[1]), seq!['}']);
            if es_natural_acotado(t) {
                crate::texto::valor_decimal(t)
            } else {
                1
            }
        } else {
            1
        }
    } else {
        1
    }
}

/// All digits, denoting a value a machine word holds.
pub open spec fn es_natural_acotado(t: Seq<char>) -> bool {
    crate::texto::es_natural(t) && crate::texto::valor_decimal(t) <= usize::MAX
}

/// The strategy class and replication factor of a keyspace's options.
pub fn obtener_tipo_strategy_y_replication(query: &str) -> (r: (String, usize))
    ensures
        r.0@ == estrategia_de(query@),
        r.1 == replicacion_de(query@),
{
    let q = chars_de_cadena(query);
    let coma: Vec<char> = vec![','];
    let dospuntos: Vec<char> = vec![':'];
    let comilla: Vec<char> = vec!['\''];
    let llave: Vec<char> = vec!['}'];
    proof {
        assert(coma@ =~= seq![',']);
        assert(dospuntos@ =~= seq![':']);
        assert(comilla@ =~= seq!['\'']);
        assert(llave@ =~= seq!['}']);
        lema_dividir_no_vacio(q@, seq![',']);
    }
    let splited = dividir_texto(&q, &coma);
    proof {
        assert(splited.deep_view()[0] == splited@[0]@);
    }
    let clase = dividir_texto(&splited[0], &dospuntos);
    let strategy: Vec<char> = if clase.len() >= 2 {
        proof {
            assert(clase.deep_view()[1] == clase@[1]@);
        }
        quitar_caracteres(&recortar_texto(&clase[1]), &comilla)
    } else {
        Vec::new()
    };
    let mut numero: usize = 1;
    if splited.len() >= 2 {
        proof {
            assert(splited.deep_view()[1] == splited@[1]@);
        }
        let rep = dividir_texto(&splited[1], &dospuntos);
        if rep.len() >= 2 {
            proof {
                assert(rep.deep_view()[1] == rep@[1]@);
            }
            let t = quitar_caracteres(&recortar_texto(&rep[1]), &llave);
            match crate::texto::parsear_natural(&t) {
                Some(n) => {
                    if n <= usize::MAX as u64 {
                        numero = n as usize;
                    } else {
                        numero = 1;
                    }
                },
                None => {
                    numero = 1;
                },
            }
        }
    }
    (cadena_de_chars(&strategy), numero)
}

/// The statement verb: its first word, upper-cased.
pub open spec fn verbo(s: Seq<char>) -> Seq<char> {
    mayusculas(palabra_en(palabras(s), 0))
}

/// The word after the verb, upper-cased.
pub open spec fn subverbo(s: Seq<char>) -> Seq<char> {
    mayusculas(palabra_en(palabras(s), 1))
}

/// Parse one statement, recognised by its verb; an unsupported verb is
/// rejected.
pub fn procesar_consulta(consulta_cql: &str) -> (r: Result<Consulta, String>)
    ensures
        ({
            let s = consulta_cql@;
            if verbo(s) == "SELECT"@ {
                r matches Ok(c) && c.tipo == TypeCQL::Select && consulta_correcta(c, s)
            } else if verbo(s) == "INSERT"@ {
                r matches Ok(c) && c.tipo == TypeCQL::Insert && consulta_correcta(c, s)
            } else if verbo(s) == "UPDATE"@ {
                r matches Ok(c) && c.tipo == TypeCQL::Update && consulta_correcta(c, s)
            } else if verbo(s) == "DELETE"@ {
                r matches Ok(c) && c.tipo == TypeCQL::Delete && consulta_correcta(c, s)
            } else if verbo(s) == "CREATE"@ && subverbo(s) == "TABLE"@ {
                r matches Ok(c) && c.tipo == TypeCQL::CreateTable && consulta_correcta(c, s)
            } else if verbo(s) == "CREATE"@ && subverbo(s) == "KEYSPACE"@ {
                r matches Ok(c) && c.tipo == TypeCQL::CreateKeyspace && consulta_correcta(c, s)
            } else {
                r is Err
            }
        }),
{
    let s = chars_de_cadena(consulta_cql);
    let ws = palabras_de(&s);
    let primera = palabra_copia(&ws, 0);
    let verbo_mayus = mayusculas_de(&primera);
    let sel: Vec<char> = vec!['S', 'E', 'L', 'E', 'C', 'T'];
    let ins: Vec<char> = vec!['I', 'N', 'S', 'E', 'R', 'T'];
    let upd: Vec<char> = vec!['U', 'P', 'D', 'A', 'T', 'E'];
    let del: Vec<char> = vec!['D', 'E', 'L', 'E', 'T', 'E'];
    let cre: Vec<char> = vec!['C', 'R', 'E', 'A', 'T', 'E'];
    proof {
        reveal_strlit("SELECT");
        reveal_strlit("INSERT");
        reveal_strlit("UPDATE");
        reveal_strlit("DELETE");
        reveal_strlit("CREATE");
        assert(sel@ =~= "SELECT"@);
        assert(ins@ =~= "INSERT"@);
        assert(upd@ =~= "UPDATE"@);
        assert(del@ =~= "DELETE"@);
        assert(cre@ =~= "CREATE"@);
    }
    if textos_iguales(&verbo_mayus, &sel) {
        return Ok(parsear_select(consulta_cql));
    }
    if textos_iguales(&verbo_mayus, &ins) {
        return Ok(parsear_insert(consulta_cql));
    }
    if textos_iguales(&verbo_mayus, &upd) {
        return Ok(parsear_update(consulta_cql));
    }
    if textos_iguales(&verbo_mayus, &del) {
        return Ok(parsear_delete(consulta_cql));
    }
    if textos_iguales(&verbo_mayus, &cre) {
        let segunda = palabra_copia(&ws, 1);
        let sub_mayus = mayusculas_de(&segunda);
        let tab: Vec<char> = vec!['T', 'A', 'B', 'L', 'E'];
        let kes: Vec<char> = vec!['K', 'E', 'Y', 'S', 'P', 'A', 'C', 'E'];
        proof {
            reveal_strlit("TABLE");
            reveal_strlit("KEYSPACE");
            assert(tab@ =~= "TABLE"@);
            assert(kes@ =~= "KEYSPACE"@);
        }
        if textos_iguales(&sub_mayus, &tab) {
            return Ok(parsear_create_table(consulta_cql));
        }
        if textos_iguales(&sub_mayus, &kes) {
            return Ok(parsear_create_keyspace(consulta_cql));
        }
        return Err("Consulta CQL no soportada".to_string());
    }
    Err("Consulta CQL no soportada".to_string())
}

} // verus!
