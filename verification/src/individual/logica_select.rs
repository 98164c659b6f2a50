//! The pure parts of the file-backed SELECT: locating keywords,
//! extracting the projection, table, conditions and ordering, filtering
//! rows and projecting columns.

use crate::cadena::{cadena_de_chars, chars_de_cadena};
use crate::individual::condiciones::evaluar_condiciones;
use crate::texto::{
    buscar, dividir, dividir_texto, mayusculas, mayusculas_de, minusculas, minusculas_de,
    primera_ocurrencia, recortar, recortar_texto, sin_blancos_fin, subvec,
};
use crate::bdd::procesamiento_data::mapa_recorta;
use vstd::prelude::*;

verus! {

/// Position of a keyword in the lower-cased statement, or the missing
/// keyword's error message naming it in upper case.
pub fn encontrar_indice_clave(consulta: &str, clave: &str) -> (r: Result<usize, String>)
    ensures
        match r {
            Ok(i) => primera_ocurrencia(minusculas(consulta@), clave@) == i,
            Err(m) => {
                &&& clave@.len() > 0 ==> primera_ocurrencia(minusculas(consulta@), clave@) == -1
                &&& m@ == "INVALID_SYNTAX: Falta la palabra "@ + mayusculas(clave@)
                    + " en la consulta"@
            },
        },
{
    let s = chars_de_cadena(consulta);
    let baja = minusculas_de(&s);
    let pat = chars_de_cadena(clave);
    if pat.len() == 0 {
        let mensaje = mensaje_falta(clave);
        return Err(mensaje);
    }
    match buscar(&baja, &pat) {
        Some(i) => Ok(i),
        None => {
            let mensaje = mensaje_falta(clave);
            Err(mensaje)
        },
    }
}

/// The error message for a missing keyword.
fn mensaje_falta(clave: &str) -> (r: String)
    ensures
        r@ == "INVALID_SYNTAX: Falta la palabra "@ + mayusculas(clave@) + " en la consulta"@,
{
    let pat = chars_de_cadena(clave);
    let cabeza = chars_de_cadena("INVALID_SYNTAX: Falta la palabra ");
    let cola = chars_de_cadena(" en la consulta");
    let mut m: Vec<char> = cabeza;
    let mut arriba = mayusculas_de(&pat);
    m.append(&mut arriba);
    let mut c = cola;
    m.append(&mut c);
    proof {
        assert(m@ =~= "INVALID_SYNTAX: Falta la palabra "@ + mayusculas(clave@)
            + " en la consulta"@);
    }
    cadena_de_chars(&m)
}

/// The projection tokens of a SELECT: the text between the verb and
/// FROM, split at commas, each piece trimmed.
pub open spec fn espec_columnas(s: Seq<char>, from_index: int) -> Seq<Seq<char>> {
    if 7 <= from_index <= s.len() {
        mapa_recorta(dividir(recortar(s.subrange(7, from_index)), seq![',']))
    } else {
        Seq::empty()
    }
}

/// Extract the projection column names of a SELECT.
#[verifier::loop_isolation(false)]
pub fn extraer_columnas(consulta: &str, from_index: usize) -> (r: Vec<String>)
    ensures
        r.deep_view() == espec_columnas(consulta@, from_index as int),
{
    let s = chars_de_cadena(consulta);
    let mut r: Vec<String> = Vec::new();
    if from_index < 7 || from_index > s.len() {
        return r;
    }
    let centro = recortar_texto(&subvec(&s, 7, from_index));
    let coma: Vec<char> = vec![','];
    proof {
        assert(coma@ =~= seq![',']);
    }
    let piezas = dividir_texto(&centro, &coma);
    let mut k: usize = 0;
    while k < piezas.len()
        invariant
            0 <= k <= piezas@.len(),
            r.deep_view() == mapa_recorta(piezas.deep_view().subrange(0, k as int)),
        decreases piezas@.len() - k,
    {
        let ghost pref = piezas.deep_view().subrange(0, k as int);
        proof {
            assert(piezas.deep_view().subrange(0, k + 1 as int).drop_last() =~~= pref);
            assert(piezas.deep_view().subrange(0, k + 1 as int).last()
                == piezas.deep_view()[k as int]);
            assert(piezas.deep_view()[k as int] == piezas@[k as int]@);
        }
        r.push(cadena_de_chars(&recortar_texto(&piezas[k])));
        proof {
            assert(r.deep_view() =~~= mapa_recorta(
                piezas.deep_view().subrange(0, k + 1 as int),
            ));
        }
        k += 1;
    }
    proof {
        assert(piezas.deep_view().subrange(0, piezas.deep_view().len() as int)
            =~~= piezas.deep_view());
    }
    r
}

/// The table name of a SELECT: between FROM and the first of WHERE or
/// ORDER BY, trimmed.
pub open spec fn espec_tabla(
    s: Seq<char>,
    from_index: int,
    where_index: Option<int>,
    order_by_index: Option<int>,
) -> Seq<char> {
    let fin = match (where_index, order_by_index) {
        (Some(w), _) => w,
        (None, Some(ob)) => ob,
        (None, None) => s.len() as int,
    };
    if 0 <= from_index && from_index + 5 <= fin <= s.len() {
        recortar(s.subrange(from_index + 5, fin))
    } else {
        Seq::empty()
    }
}

/// Extract the table name of a SELECT.
pub fn extraer_tabla(
    consulta: &str,
    from_index: usize,
    where_index: Option<usize>,
    order_by_index: Option<usize>,
) -> (r: String)
    ensures
        r@ == espec_tabla(
            consulta@,
            from_index as int,
            match where_index {
                Some(w) => Some(w as int),
                None => None,
            },
            match order_by_index {
                Some(ob) => Some(ob as int),
                None => None,
            },
        ),
{
    let s = chars_de_cadena(consulta);
    let fin: usize = match (where_index, order_by_index) {
        (Some(w), _) => w,
        (None, Some(ob)) => ob,
        (None, None) => s.len(),
    };
    if fin <= s.len() && from_index <= fin && fin - from_index >= 5 {
        let nucleo = recortar_texto(&subvec(&s, from_index + 5, fin));
        cadena_de_chars(&nucleo)
    } else {
        String::new()
    }
}

/// The condition text of a SELECT: between WHERE and ORDER BY or the
/// end, trailing blanks dropped.
pub open spec fn espec_condiciones(
    s: Seq<char>,
    where_index: Option<int>,
    order_by_index: Option<int>,
) -> Option<Seq<char>> {
    match where_index {
        Some(w) => {
            let fin = match order_by_index {
                Some(ob) => ob,
                None => s.len() as int,
            };
            if 0 <= w && w + 6 <= fin <= s.len() {
                Some(sin_blancos_fin(s.subrange(w + 6, fin)))
            } else {
                Some(Seq::empty())
            }
        },
        None => None,
    }
}

/// Extract the condition text of a SELECT.
pub fn extraer_condiciones(
    consulta: &str,
    where_index: Option<usize>,
    order_by_index: Option<usize>,
) -> (r: Option<String>)
    ensures
        ({
            let espec = espec_condiciones(
                consulta@,
                match where_index {
                    Some(w) => Some(w as int),
                    None => None,
                },
                match order_by_index {
                    Some(ob) => Some(ob as int),
                    None => None,
                },
            );
            match r {
                Some(c) => espec == Some(c@),
                None => espec is None,
            }
        }),
{
    let s = chars_de_cadena(consulta);
    match where_index {
        Some(w) => {
            let fin: usize = match order_by_index {
                Some(ob) => ob,
                None => s.len(),
            };
            if fin <= s.len() && w <= fin && fin - w >= 6 {
                let nucleo = subvec(&s, w + 6, fin);
                let mut b: usize = nucleo.len();
                while b > 0 && crate::texto::es_blanco_car(nucleo[b - 1])
                    invariant
                        0 <= b <= nucleo@.len(),
                        forall|k: int| b <= k < nucleo@.len() ==> crate::texto::es_blanco(
                            nucleo@[k],
                        ),
                    decreases b,
                {
                    b -= 1;
                }
                proof {
                    crate::texto::lema_recorte_fin(nucleo@, b as int);
                }
                let fin_texto = subvec(&nucleo, 0, b);
                Some(cadena_de_chars(&fin_texto))
            } else {
                Some(String::new())
            }
        },
        None => None,
    }
}

/// The ordering text of a SELECT: everything after `ORDER BY `, trimmed
/// at the front by the keyword's own length.
pub open spec fn espec_orden(s: Seq<char>, order_by_index: Option<int>) -> Option<Seq<char>> {
    match order_by_index {
        Some(ob) => {
            if 0 <= ob && ob + 9 <= s.len() {
                Some(recortar(s.subrange(ob + 9, s.len() as int)))
            } else {
                Some(Seq::empty())
            }
        },
        None => None,
    }
}

/// Extract the ordering text of a SELECT.
pub fn extraer_orden(consulta: &str, order_by_index: Option<usize>) -> (r: Option<String>)
    ensures
        ({
            let espec = espec_orden(
                consulta@,
                match order_by_index {
                    Some(ob) => Some(ob as int),
                    None => None,
                },
            );
            match r {
                Some(o) => espec == Some(o@),
                None => espec is None,
            }
        }),
{
    let s = chars_de_cadena(consulta);
    match order_by_index {
        Some(ob) => {
            if s.len() >= 9 && ob <= s.len() - 9 {
                let cola = recortar_texto(&subvec(&s, ob + 9, s.len()));
                Some(cadena_de_chars(&cola))
            } else {
                Some(String::new())
            }
        },
        None => None,
    }
}

/// Parse a SELECT into its projection, table, conditions and ordering.
pub fn parsear_consulta_select(consulta: &str) -> (r: Result<
    (Vec<String>, String, Option<String>, Option<String>),
    String,
>)
    ensures
        r matches Ok((columnas, tabla, condiciones, orden)) ==> {
            let s = consulta@;
            let fi = primera_ocurrencia(minusculas(s), "from"@);
            let wi = primera_ocurrencia(minusculas(s), "where"@);
            let obi = primera_ocurrencia(minusculas(s), "order by"@);
            let wio: Option<int> = if wi >= 0 {
                Some(wi)
            } else {
                None
            };
            let obio: Option<int> = if obi >= 0 {
                Some(obi)
            } else {
                None
            };
            &&& fi >= 0
            &&& columnas.deep_view() == espec_columnas(s, fi)
            &&& tabla@ == espec_tabla(s, fi, wio, obio)
            &&& (match condiciones {
                Some(c) => espec_condiciones(s, wio, obio) == Some(c@),
                None => espec_condiciones(s, wio, obio) is None,
            })
            &&& (match orden {
                Some(o) => espec_orden(s, obio) == Some(o@),
                None => espec_orden(s, obio) is None,
            })
        },
        r is Err ==> primera_ocurrencia(minusculas(consulta@), "from"@) == -1,
{
    proof {
        reveal_strlit("from");
        reveal_strlit("where");
        reveal_strlit("order by");
    }
    let from_index = match encontrar_indice_clave(consulta, "from") {
        Ok(i) => i,
        Err(e) => {
            return Err(e);
        },
    };
    let where_index = match encontrar_indice_clave(consulta, "where") {
        Ok(i) => Some(i),
        Err(_) => None,
    };
    let order_by_index = match encontrar_indice_clave(consulta, "order by") {
        Ok(i) => Some(i),
        Err(_) => None,
    };
    let columnas = extraer_columnas(consulta, from_index);
    let tabla = extraer_tabla(consulta, from_index, where_index, order_by_index);
    let condiciones = extraer_condiciones(consulta, where_index, order_by_index);
    let orden = extraer_orden(consulta, order_by_index);
    Ok((columnas, tabla, condiciones, orden))
}

/// Filter the rows that meet the conditions, splitting each kept row
/// into its cells; without conditions every row is kept.
pub fn seleccionar_lineas(
    lineas: &Vec<String>,
    nombres_columnas: &Vec<String>,
    condiciones: Option<&str>,
) -> (r: Result<Vec<Vec<String>>, &'static str>)
    ensures
        r matches Ok(ls) ==> ls@.len() <= lineas@.len(),
        condiciones is None && (r matches Ok(ls) && ls@.len() == lineas@.len()) || !(condiciones
            is None) || r is Err,
{
    let coma: Vec<char> = vec![','];
    proof {
        assert(coma@ =~= seq![',']);
    }
    let mut resultado: Vec<Vec<String>> = Vec::new();
    let mut i: usize = 0;
    while i < lineas.len()
        invariant
            0 <= i <= lineas@.len(),
            coma@ == seq![','],
            resultado@.len() <= i,
            condiciones is None ==> resultado@.len() == i,
        decreases lineas@.len() - i,
    {
        let cumple = match condiciones {
            Some(cond) => {
                match evaluar_condiciones(lineas[i].as_str(), cond, nombres_columnas) {
                    Ok(b) => b,
                    Err(e) => {
                        return Err(e);
                    },
                }
            },
            None => true,
        };
        if cumple {
            let l = chars_de_cadena(lineas[i].as_str());
            let celdas = dividir_texto(&l, &coma);
            let mut fila: Vec<String> = Vec::new();
            let mut x: usize = 0;
            while x < celdas.len()
                invariant
                    0 <= x <= celdas@.len(),
                decreases celdas@.len() - x,
            {
                fila.push(cadena_de_chars(&celdas[x]));
                x += 1;
            }
            resultado.push(fila);
        }
        i += 1;
    }
    Ok(resultado)
}

/// Project the given columns out of each row; a column that names no
/// header fails, a missing cell becomes empty text.
#[verifier::loop_isolation(false)]
pub fn seleccionar_columnas(
    lineas: &Vec<Vec<String>>,
    nombres_columnas: &Vec<String>,
    columnas: &Vec<String>,
) -> (r: Result<Vec<Vec<String>>, &'static str>)
    ensures
        ({
            let hay_todas = forall|k: int|
                0 <= k < columnas@.len() ==> crate::bdd::nodo::primera_posicion(
                    nombres_columnas.deep_view(),
                    (#[trigger] columnas.deep_view()[k]),
                ) >= 0;
            &&& (r is Ok <==> hay_todas)
            &&& r matches Ok(ls) ==> {
                &&& ls@.len() == lineas@.len()
                &&& forall|f: int, k: int|
                    0 <= f < lineas@.len() && 0 <= k < columnas@.len()
                        ==> (#[trigger] ls.deep_view()[f][k]) == ({
                        let u = crate::bdd::nodo::primera_posicion(
                            nombres_columnas.deep_view(),
                            columnas.deep_view()[k],
                        );
                        if 0 <= u < lineas.deep_view()[f].len() {
                            lineas.deep_view()[f][u]
                        } else {
                            Seq::<char>::empty()
                        }
                    })
                &&& forall|f: int|
                    0 <= f < lineas@.len() ==> (#[trigger] ls.deep_view()[f]).len()
                        == columnas@.len()
            }
        }),
{
    let mut indices: Vec<usize> = Vec::new();
    let mut k: usize = 0;
    while k < columnas.len()
        invariant
            0 <= k <= columnas@.len(),
            indices@.len() == k,
            forall|g: int|
                0 <= g < k ==> crate::bdd::nodo::primera_posicion(
                    nombres_columnas.deep_view(),
                    (#[trigger] columnas.deep_view()[g]),
                ) == indices@[g],
        decreases columnas@.len() - k,
    {
        proof {
            assert(columnas.deep_view()[k as int] == columnas@[k as int]@);
        }
        let col = chars_de_cadena(columnas[k].as_str());
        match crate::bdd::nodo::buscar_posicion(nombres_columnas, &col) {
            Some(u) => {
                indices.push(u);
            },
            None => {
                return Err("INVALID_COLUMN: Columna no encontrada");
            },
        }
        k += 1;
    }
    let mut resultado: Vec<Vec<String>> = Vec::new();
    let mut f: usize = 0;
    while f < lineas.len()
        invariant
            0 <= f <= lineas@.len(),
            resultado@.len() == f,
            indices@.len() == columnas@.len(),
            forall|g: int|
                0 <= g < columnas@.len() ==> crate::bdd::nodo::primera_posicion(
                    nombres_columnas.deep_view(),
                    (#[trigger] columnas.deep_view()[g]),
                ) == indices@[g],
            forall|g: int, k2: int|
                0 <= g < f && 0 <= k2 < columnas@.len() ==> (#[trigger] resultado.deep_view()[
                g][k2]) == ({
                    let u = indices@[k2] as int;
                    if 0 <= u < lineas.deep_view()[g].len() {
                        lineas.deep_view()[g][u]
                    } else {
                        Seq::<char>::empty()
                    }
                }),
            forall|g: int|
                0 <= g < f ==> (#[trigger] resultado.deep_view()[g]).len() == columnas@.len(),
        decreases lineas@.len() - f,
    {
        let fila = &lineas[f];
        let mut nueva: Vec<String> = Vec::new();
        let mut x: usize = 0;
        while x < indices.len()
            invariant
                0 <= x <= indices@.len(),
                nueva@.len() == x,
                fila == lineas@[f as int],
                f < lineas@.len(),
                forall|k2: int|
                    0 <= k2 < x ==> (#[trigger] nueva.deep_view()[k2]) == ({
                        let u = indices@[k2] as int;
                        if 0 <= u < lineas.deep_view()[f as int].len() {
                            lineas.deep_view()[f as int][u]
                        } else {
                            Seq::<char>::empty()
                        }
                    }),
            decreases indices@.len() - x,
        {
            let u = indices[x];
            let ghost nueva_antes = nueva.deep_view();
            if u < fila.len() {
                proof {
                    assert(lineas.deep_view()[f as int][u as int] == lineas@[f as int]@[u as int]@);
                }
                nueva.push(fila[u].clone());
                proof {
                    assert(nueva.deep_view() =~~= nueva_antes.push(
                        lineas.deep_view()[f as int][u as int],
                    ));
                }
            } else {
                proof {
                    assert(lineas.deep_view()[f as int].len() == lineas@[f as int]@.len());
                }
                nueva.push(String::new());
                proof {
                    assert(nueva.deep_view() =~~= nueva_antes.push(Seq::<char>::empty()));
                }
            }
            x += 1;
        }
        let ghost res_antes = resultado.deep_view();
        let ghost nueva_vista = nueva.deep_view();
        resultado.push(nueva);
        proof {
            assert(resultado.deep_view() =~~= res_antes.push(nueva_vista));
        }
        f += 1;
    }
    Ok(resultado)
}

/// Reorder rows by the named criteria, descending where marked.  The
/// rows of the result are a permutation of the input's.
#[verifier::loop_isolation(false)]
pub fn ordenar_lineas(
    lineas: Vec<Vec<String>>,
    nombres_columnas: &Vec<String>,
    orden: Option<&str>,
) -> (r: Vec<Vec<String>>)
    ensures
        r@.to_multiset() == lineas@.to_multiset(),
        r@.len() == lineas@.len(),
{
    broadcast use vstd::seq_lib::group_to_multiset_ensures;

    let orden_texto: &str = match orden {
        Some(o) => o,
        None => {
            return lineas;
        },
    };
    let o = chars_de_cadena(orden_texto);
    let coma: Vec<char> = vec![','];
    let piezas = dividir_texto(&o, &coma);
    let mut criterios: Vec<(usize, bool)> = Vec::new();
    let mut k: usize = 0;
    let desc_marca: Vec<char> = vec![' ', 'D', 'E', 'S', 'C'];
    let asc_marca: Vec<char> = vec![' ', 'A', 'S', 'C'];
    while k < piezas.len()
        invariant
            0 <= k <= piezas@.len(),
            desc_marca@.len() == 5,
            asc_marca@.len() == 4,
        decreases piezas@.len() - k,
    {
        let criterio = recortar_texto(&piezas[k]);
        let mut columna: Vec<char> = subvec(&criterio, 0, criterio.len());
        let mut descendente = false;
        if criterio.len() >= 5 {
            let cola = subvec(&criterio, criterio.len() - 5, criterio.len());
            if crate::texto::textos_iguales(&cola, &desc_marca) {
                columna = subvec(&criterio, 0, criterio.len() - 5);
                descendente = true;
            } else if criterio.len() >= 4 {
                let cola2 = subvec(&criterio, criterio.len() - 4, criterio.len());
                if crate::texto::textos_iguales(&cola2, &asc_marca) {
                    columna = subvec(&criterio, 0, criterio.len() - 4);
                }
            }
        } else if criterio.len() >= 4 {
            let cola2 = subvec(&criterio, criterio.len() - 4, criterio.len());
            if crate::texto::textos_iguales(&cola2, &asc_marca) {
                columna = subvec(&criterio, 0, criterio.len() - 4);
            }
        }
        match crate::bdd::nodo::buscar_posicion(nombres_columnas, &columna) {
            Some(u) => {
                criterios.push((u, descendente));
            },
            None => {
            },
        }
        k += 1;
    }
    let mut resultado = lineas;
    let n = resultado.len();
    let mut i: usize = 1;
    while i < n
        invariant
            n == resultado@.len(),
            resultado@.to_multiset() == lineas@.to_multiset(),
        decreases n - i,
    {
        let mut j: usize = i;
        while j > 0
            invariant
                0 <= j <= i < n,
                n == resultado@.len(),
                resultado@.to_multiset() == lineas@.to_multiset(),
            decreases j,
        {
            let anterior = &resultado[j - 1];
            let actual = &resultado[j];
            if va_despues(anterior, actual, &criterios) {
                let ghost antes = resultado@;
                let tmp = resultado.remove(j);
                resultado.insert(j - 1, tmp);
                proof {
                    assert(resultado@.to_multiset() =~= antes.to_multiset()) by {
                        assert(antes.remove(j as int).to_multiset() =~= antes.to_multiset()
                            .remove(antes[j as int]));
                        assert(resultado@.to_multiset() =~= antes.remove(
                            j as int,
                        ).to_multiset().insert(antes[j as int]));
                        assert(antes.to_multiset().contains(antes[j as int]));
                        assert(antes.to_multiset().remove(antes[j as int]).insert(
                            antes[j as int],
                        ) =~= antes.to_multiset());
                    }
                }
                j -= 1;
            } else {
                j = 0;
            }
        }
        i += 1;
    }
    resultado
}

/// Whether `a` must come after `b` under the criteria: at the first
/// criterion whose cells differ, `a`'s is the one out of order.
fn va_despues(a: &Vec<String>, b: &Vec<String>, criterios: &Vec<(usize, bool)>) -> (r: bool)
{
    let mut k: usize = 0;
    while k < criterios.len()
        invariant
            0 <= k <= criterios@.len(),
        decreases criterios@.len() - k,
    {
        let (u, descendente) = criterios[k];
        if u < a.len() && u < b.len() {
            let ca = chars_de_cadena(a[u].as_str());
            let cb = chars_de_cadena(b[u].as_str());
            let c = crate::texto::comparar_lex(&ca, &cb);
            if c != 0 {
                if descendente {
                    return c == -1;
                }
                return c == 1;
            }
        }
        k += 1;
    }
    false
}

} // verus!
