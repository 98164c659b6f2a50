//! The pure parts of the file-backed INSERT: locating keywords,
//! extracting the table, column list and value rows, and arranging
//! values into header order.

use crate::cadena::{cadena_de_chars, chars_de_cadena};
use crate::texto::{
    buscar, dividir, dividir_texto, lema_primera_ocurrencia, minusculas, ocurre_en,
    primera_ocurrencia, recortar, recortar_texto, subvec, textos_iguales, unir,
};
use crate::bdd::procesamiento_data::mapa_recorta;
use vstd::prelude::*;

verus! {

/// Position of a word in the statement, or an error message naming it.
pub fn encontrar_palabra(consulta: &str, palabra: &str) -> (r: Result<usize, String>)
    ensures
        match r {
            Ok(i) => palabra@.len() > 0 && primera_ocurrencia(consulta@, palabra@) == i,
            Err(m) => {
                &&& palabra@.len() > 0 ==> primera_ocurrencia(consulta@, palabra@) == -1
                &&& m@ == "INVALID_SYNTAX: La consulta INSERT no contiene la palabra '"@
                    + palabra@ + "'."@
            },
        },
{
    let s = chars_de_cadena(consulta);
    let pat = chars_de_cadena(palabra);
    if pat.len() == 0 {
        return Err(mensaje_sin_palabra(palabra));
    }
    match buscar(&s, &pat) {
        Some(i) => Ok(i),
        None => Err(mensaje_sin_palabra(palabra)),
    }
}

/// The error message for a missing INSERT keyword.
fn mensaje_sin_palabra(palabra: &str) -> (r: String)
    ensures
        r@ == "INVALID_SYNTAX: La consulta INSERT no contiene la palabra '"@ + palabra@ + "'."@,
{
    let cabeza = chars_de_cadena("INVALID_SYNTAX: La consulta INSERT no contiene la palabra '");
    let cola = chars_de_cadena("'.");
    let mut m: Vec<char> = cabeza;
    let mut p = chars_de_cadena(palabra);
    m.append(&mut p);
    let mut c = cola;
    m.append(&mut c);
    proof {
        assert(m@ =~= "INVALID_SYNTAX: La consulta INSERT no contiene la palabra '"@ + palabra@
            + "'."@);
    }
    cadena_de_chars(&m)
}

/// The table name and column list of an INSERT: the text between INTO
/// and VALUES, parted at its first parenthesis.
pub open spec fn espec_tabla_y_columnas(
    s: Seq<char>,
    into_index: int,
    values_index: int,
) -> Option<(Seq<char>, Seq<char>)> {
    if 0 <= into_index && into_index + 4 <= values_index <= s.len() {
        let centro = recortar(s.subrange(into_index + 4, values_index));
        let p = primera_ocurrencia(centro, seq!['(']);
        if p >= 0 {
            Some(
                (
                    recortar(centro.subrange(0, p)),
                    sin_cierres_finales(recortar(centro.subrange(p + 1, centro.len() as int))),
                ),
            )
        } else {
            None
        }
    } else {
        None
    }
}

/// `s` without its trailing closing parentheses.
pub open spec fn sin_cierres_finales(s: Seq<char>) -> Seq<char>
    decreases s.len(),
{
    if s.len() > 0 && s.last() == ')' {
        sin_cierres_finales(s.drop_last())
    } else {
        s
    }
}

/// Extract the table name and the column list of an INSERT.
#[verifier::loop_isolation(false)]
pub fn extraer_tabla_y_columnas(consulta: &str, into_index: usize, values_index: usize) -> (r:
    Result<(String, String), String>)
    ensures
        match r {
            Ok((tabla, columnas)) => espec_tabla_y_columnas(
                consulta@,
                into_index as int,
                values_index as int,
            ) == Some((tabla@, columnas@)),
            Err(_) => espec_tabla_y_columnas(consulta@, into_index as int, values_index as int)
                is None,
        },
{
    let s = chars_de_cadena(consulta);
    if !(values_index <= s.len() && into_index <= values_index && values_index - into_index >= 4) {
        return Err("ERROR: No se pudo extraer el nombre de la tabla.".to_string());
    }
    let centro = recortar_texto(&subvec(&s, into_index + 4, values_index));
    let abre: Vec<char> = vec!['('];
    proof {
        assert(abre@ =~= seq!['(']);
        lema_primera_ocurrencia(centro@, seq!['(']);
    }
    match buscar(&centro, &abre) {
        Some(p) => {
            let nc = centro.len();
            proof {
                assert(ocurre_en(centro@, seq!['('], p as int));
                assert(p < nc);
            }
            let tabla = recortar_texto(&subvec(&centro, 0, p));
            let resto = recortar_texto(&subvec(&centro, p + 1, nc));
            let mut b: usize = resto.len();
            proof {
                assert(resto@.subrange(0, resto@.len() as int) =~= resto@);
            }
            while b > 0 && resto[b - 1] == ')'
                invariant
                    0 <= b <= resto@.len(),
                    sin_cierres_finales(resto@) == sin_cierres_finales(
                        resto@.subrange(0, b as int),
                    ),
                decreases b,
            {
                proof {
                    assert(resto@.subrange(0, b as int).drop_last() =~= resto@.subrange(
                        0,
                        b - 1,
                    ));
                    assert(resto@.subrange(0, b as int).last() == resto@[b - 1]);
                }
                b -= 1;
            }
            proof {
                assert(resto@.subrange(0, resto@.len() as int) =~= resto@);
                assert(sin_cierres_finales(resto@.subrange(0, b as int)) =~= resto@.subrange(
                    0,
                    b as int,
                ));
            }
            let columnas = subvec(&resto, 0, b);
            Ok((cadena_de_chars(&tabla), cadena_de_chars(&columnas)))
        },
        None => {
            proof {
                if primera_ocurrencia(centro@, seq!['(']) >= 0 {
                    assert(false);
                }
            }
            Err("ERROR: No se pudo extraer la lista de columnas.".to_string())
        },
    }
}

/// The value extractor's step: quotes toggle, a top-level parenthesis
/// opens or closes one row of values.
pub struct EstadoValores {
    pub valores: Seq<Seq<char>>,
    pub temporal: Seq<char>,
    pub entre_comillas: bool,
    pub dentro_parentesis: bool,
}

/// One extractor step on one character.
pub open spec fn paso_valor(e: EstadoValores, c: char) -> EstadoValores {
    if c == '\'' {
        EstadoValores { entre_comillas: !e.entre_comillas, ..e }
    } else if c == '(' {
        if !e.dentro_parentesis {
            EstadoValores { dentro_parentesis: true, ..e }
        } else {
            EstadoValores { temporal: e.temporal.push(c), ..e }
        }
    } else if c == ')' {
        if e.dentro_parentesis && !e.entre_comillas {
            EstadoValores {
                valores: e.valores.push(recortar(e.temporal)),
                temporal: Seq::empty(),
                dentro_parentesis: false,
                ..e
            }
        } else {
            EstadoValores { temporal: e.temporal.push(c), ..e }
        }
    } else {
        EstadoValores { temporal: e.temporal.push(c), ..e }
    }
}

/// The extractor run over a whole text.
pub open spec fn corre_valores(e: EstadoValores, s: Seq<char>) -> EstadoValores
    decreases s.len(),
{
    if s.len() == 0 {
        e
    } else {
        corre_valores(paso_valor(e, s[0]), s.drop_first())
    }
}

/// The value rows of an INSERT's VALUES text.
pub open spec fn espec_valores(s: Seq<char>) -> Seq<Seq<char>> {
    corre_valores(
        EstadoValores {
            valores: Seq::empty(),
            temporal: Seq::empty(),
            entre_comillas: false,
            dentro_parentesis: false,
        },
        s,
    ).valores
}

/// Extract the value rows of an INSERT; none at all is an error.
#[verifier::loop_isolation(false)]
pub fn extraer_valores(valores_str: &str) -> (r: Result<Vec<String>, String>)
    ensures
        match r {
            Ok(vs) => vs.deep_view() == espec_valores(valores_str@) && vs@.len() > 0,
            Err(_) => espec_valores(valores_str@).len() == 0,
        },
{
    let s = chars_de_cadena(valores_str);
    let mut valores: Vec<String> = Vec::new();
    let mut temporal: Vec<char> = Vec::new();
    let mut entre_comillas = false;
    let mut dentro_parentesis = false;
    let mut i: usize = 0;
    proof {
        assert(s@.skip(0) =~= s@);
        assert(valores.deep_view() =~~= Seq::<Seq<char>>::empty());
        assert(temporal@ =~= Seq::<char>::empty());
        assert(EstadoValores {
            valores: valores.deep_view(),
            temporal: temporal@,
            entre_comillas: entre_comillas,
            dentro_parentesis: dentro_parentesis,
        } == EstadoValores {
            valores: Seq::<Seq<char>>::empty(),
            temporal: Seq::<char>::empty(),
            entre_comillas: false,
            dentro_parentesis: false,
        });
    }
    while i < s.len()
        invariant
            0 <= i <= s@.len(),
            corre_valores(
                EstadoValores {
                    valores: valores.deep_view(),
                    temporal: temporal@,
                    entre_comillas: entre_comillas,
                    dentro_parentesis: dentro_parentesis,
                },
                s@.skip(i as int),
            ) == corre_valores(
                EstadoValores {
                    valores: Seq::empty(),
                    temporal: Seq::empty(),
                    entre_comillas: false,
                    dentro_parentesis: false,
                },
                s@,
            ),
        decreases s@.len() - i,
    {
        let ghost antes = EstadoValores {
            valores: valores.deep_view(),
            temporal: temporal@,
            entre_comillas: entre_comillas,
            dentro_parentesis: dentro_parentesis,
        };
        proof {
            assert(s@.skip(i as int).drop_first() =~= s@.skip(i + 1));
            assert(s@.skip(i as int)[0] == s@[i as int]);
        }
        let c = s[i];
        if c == '\'' {
            entre_comillas = !entre_comillas;
        } else if c == '(' {
            if !dentro_parentesis {
                dentro_parentesis = true;
            } else {
                temporal.push(c);
                proof {
                    assert(temporal@ =~= antes.temporal.push(s@[i as int]));
                }
            }
        } else if c == ')' {
            if dentro_parentesis && !entre_comillas {
                let limpio = recortar_texto(&temporal);
                valores.push(cadena_de_chars(&limpio));
                temporal = Vec::new();
                dentro_parentesis = false;
                proof {
                    assert(valores.deep_view() =~~= antes.valores.push(recortar(antes.temporal)));
                    assert(temporal@ =~= Seq::<char>::empty());
                }
            } else {
                temporal.push(c);
                proof {
                    assert(temporal@ =~= antes.temporal.push(s@[i as int]));
                }
            }
        } else {
            temporal.push(c);
            proof {
                assert(temporal@ =~= antes.temporal.push(s@[i as int]));
            }
        }
        proof {
            let despues = EstadoValores {
                valores: valores.deep_view(),
                temporal: temporal@,
                entre_comillas: entre_comillas,
                dentro_parentesis: dentro_parentesis,
            };
            assert(despues.valores =~~= paso_valor(antes, s@[i as int]).valores);
            assert(despues.temporal =~= paso_valor(antes, s@[i as int]).temporal);
            assert(despues == paso_valor(antes, s@[i as int]));
        }
        i += 1;
    }
    proof {
        assert(s@.skip(s@.len() as int).len() == 0);
    }
    if valores.len() == 0 {
        return Err("INVALID_SYNTAX: No se encontraron valores para insertar.".to_string());
    }
    Ok(valores)
}

/// One row of values arranged into header order: a column the statement
/// names contributes its value, every other column an empty cell.
pub open spec fn espec_mapear(
    columnas_insertadas: Seq<Seq<char>>,
    nombres_columnas: Seq<Seq<char>>,
    valores_insertados: Seq<Seq<char>>,
) -> Seq<Seq<char>>
    decreases nombres_columnas.len(),
{
    if nombres_columnas.len() == 0 {
        Seq::empty()
    } else {
        espec_mapear(
            columnas_insertadas,
            nombres_columnas.drop_last(),
            valores_insertados,
        ).push(
            {
                let p = crate::bdd::nodo::primera_posicion(
                    columnas_insertadas,
                    nombres_columnas.last(),
                );
                if 0 <= p < valores_insertados.len() {
                    valores_insertados[p]
                } else {
                    Seq::empty()
                }
            },
        )
    }
}

/// Arrange one row of values into header order.
#[verifier::loop_isolation(false)]
pub fn mapear_valores(
    columnas_insertadas: &Vec<String>,
    nombres_columnas: &Vec<String>,
    valores_insertados: &Vec<String>,
) -> (r: Vec<String>)
    ensures
        r.deep_view() == espec_mapear(
            columnas_insertadas.deep_view(),
            nombres_columnas.deep_view(),
            valores_insertados.deep_view(),
        ),
{
    let mut r: Vec<String> = Vec::new();
    let mut k: usize = 0;
    while k < nombres_columnas.len()
        invariant
            0 <= k <= nombres_columnas@.len(),
            r.deep_view() == espec_mapear(
                columnas_insertadas.deep_view(),
                nombres_columnas.deep_view().subrange(0, k as int),
                valores_insertados.deep_view(),
            ),
        decreases nombres_columnas@.len() - k,
    {
        let ghost pref = nombres_columnas.deep_view().subrange(0, k as int);
        proof {
            assert(nombres_columnas.deep_view().subrange(0, k + 1 as int).drop_last()
                =~~= pref);
            assert(nombres_columnas.deep_view().subrange(0, k + 1 as int).last()
                == nombres_columnas.deep_view()[k as int]);
            assert(nombres_columnas.deep_view()[k as int] == nombres_columnas@[k as int]@);
        }
        let nombre = chars_de_cadena(nombres_columnas[k].as_str());
        match crate::bdd::nodo::buscar_posicion(columnas_insertadas, &nombre) {
            Some(p) if p < valores_insertados.len() => {
                proof {
                    assert(valores_insertados.deep_view()[p as int]
                        == valores_insertados@[p as int]@);
                }
                r.push(valores_insertados[p].clone());
            },
            _ => {
                r.push(String::new());
            },
        }
        proof {
            assert(r.deep_view() =~~= espec_mapear(
                columnas_insertadas.deep_view(),
                nombres_columnas.deep_view().subrange(0, k + 1 as int),
                valores_insertados.deep_view(),
            ));
        }
        k += 1;
    }
    proof {
        assert(nombres_columnas.deep_view().subrange(0, nombres_columnas.deep_view().len() as int)
            =~~= nombres_columnas.deep_view());
    }
    r
}

/// Check that every named column belongs to the table.
#[verifier::loop_isolation(false)]
pub fn validar_columnas(
    columnas_insertadas: &Vec<String>,
    nombres_columnas: &Vec<String>,
) -> (r: Result<(), &'static str>)
    ensures
        r is Ok <==> forall|k: int|
            0 <= k < columnas_insertadas@.len() ==> nombres_columnas.deep_view().contains(
                (#[trigger] columnas_insertadas.deep_view()[k]),
            ),
{
    let mut k: usize = 0;
    while k < columnas_insertadas.len()
        invariant
            0 <= k <= columnas_insertadas@.len(),
            forall|g: int|
                0 <= g < k ==> nombres_columnas.deep_view().contains(
                    (#[trigger] columnas_insertadas.deep_view()[g]),
                ),
        decreases columnas_insertadas@.len() - k,
    {
        proof {
            assert(columnas_insertadas.deep_view()[k as int] == columnas_insertadas@[k as int]@);
        }
        let col = chars_de_cadena(columnas_insertadas[k].as_str());
        match crate::bdd::nodo::buscar_posicion(nombres_columnas, &col) {
            Some(p) => {
                proof {
                    crate::bdd::nodo::lema_primera_posicion(nombres_columnas.deep_view(), col@);
                    assert(nombres_columnas.deep_view()[p as int] == col@);
                }
            },
            None => {
                proof {
                    crate::bdd::nodo::lema_primera_posicion(nombres_columnas.deep_view(), col@);
                }
                return Err(
                    "INVALID_COLUMN: Una de las columnas especificadas no pertenece a la tabla.",
                );
            },
        }
        k += 1;
    }
    Ok(())
}

/// Parse an INSERT into its column list, table name and value rows.
pub fn parsear_consulta_insert(consulta: &str) -> (r: Result<Vec<String>, String>)
    ensures
        r matches Ok(partes) ==> {
            let baja = crate::texto::minusculas(consulta@);
            let ii = primera_ocurrencia(baja, "into"@);
            let vi = primera_ocurrencia(baja, "values"@);
            &&& ii >= 0
            &&& vi >= 0
            &&& partes@.len() >= 3
            &&& espec_tabla_y_columnas(consulta@, ii, vi) matches Some((tabla, columnas))
                && partes.deep_view()[0] == columnas && partes.deep_view()[1] == tabla
            &&& vi + 6 <= consulta@.len()
            &&& partes.deep_view().subrange(2, partes.deep_view().len() as int) == espec_valores(
                consulta@.subrange(vi + 6, consulta@.len() as int),
            )
        },
{
    proof {
        reveal_strlit("into");
        reveal_strlit("values");
    }
    let s = chars_de_cadena(consulta);
    let baja = crate::texto::minusculas_de(&s);
    let baja_cadena = cadena_de_chars(&baja);
    let into_index = match encontrar_palabra(baja_cadena.as_str(), "into") {
        Ok(i) => i,
        Err(e) => {
            return Err(e);
        },
    };
    let values_index = match encontrar_palabra(baja_cadena.as_str(), "values") {
        Ok(i) => i,
        Err(e) => {
            return Err(e);
        },
    };
    let (nombre_tabla, columnas) = match extraer_tabla_y_columnas(
        consulta,
        into_index,
        values_index,
    ) {
        Ok(p) => p,
        Err(e) => {
            return Err(e);
        },
    };
    proof {
        lema_primera_ocurrencia(minusculas(consulta@), "values"@);
        assert(ocurre_en(minusculas(consulta@), "values"@, values_index as int));
        assert(minusculas(consulta@).len() == consulta@.len());
    }
    let valores = match extraer_valores(
        cadena_de_chars(&subvec(&s, values_index + 6, s.len())).as_str(),
    ) {
        Ok(v) => v,
        Err(e) => {
            return Err(e);
        },
    };
    let mut resultado: Vec<String> = Vec::new();
    resultado.push(columnas);
    resultado.push(nombre_tabla);
    let mut v = valores;
    let ghost valores_vista = v.deep_view();
    resultado.append(&mut v);
    proof {
        assert(resultado.deep_view().subrange(2, resultado.deep_view().len() as int)
            =~~= valores_vista);
    }
    Ok(resultado)
}

/// `s` without its leading opening parentheses.
pub open spec fn sin_abres_iniciales(s: Seq<char>) -> Seq<char>
    decreases s.len(),
{
    if s.len() > 0 && s[0] == '(' {
        sin_abres_iniciales(s.drop_first())
    } else {
        s
    }
}

/// The values one parenthesised row of an INSERT carries, trimmed.
pub open spec fn espec_valores_de_fila(fila: Seq<char>) -> Seq<Seq<char>> {
    mapa_recorta(
        dividir(sin_cierres_finales(sin_abres_iniciales(recortar(fila))), seq![',']),
    )
}

/// Each value row arranged into header order and re-joined: the lines an
/// INSERT appends to the table's file.
pub open spec fn espec_filas_insertadas(
    nombres_columnas: Seq<Seq<char>>,
    columnas_insertadas: Seq<Seq<char>>,
    filas: Seq<Seq<char>>,
) -> Seq<Seq<char>>
    decreases filas.len(),
{
    if filas.len() == 0 {
        Seq::empty()
    } else {
        espec_filas_insertadas(nombres_columnas, columnas_insertadas, filas.drop_last()).push(
            unir(
                espec_mapear(
                    columnas_insertadas,
                    nombres_columnas,
                    espec_valores_de_fila(filas.last()),
                ),
                seq![','],
            ),
        )
    }
}

/// Arrange every value row of an INSERT into header order.
#[verifier::loop_isolation(false)]
pub fn insertar_filas(
    nombres_columnas: &Vec<String>,
    columnas_insertadas: &Vec<String>,
    filas_a_insertar: &Vec<String>,
) -> (r: Vec<String>)
    ensures
        r.deep_view() == espec_filas_insertadas(
            nombres_columnas.deep_view(),
            columnas_insertadas.deep_view(),
            filas_a_insertar.deep_view(),
        ),
{
    let coma: Vec<char> = vec![','];
    proof {
        assert(coma@ =~= seq![',']);
    }
    let mut r: Vec<String> = Vec::new();
    let mut f: usize = 0;
    while f < filas_a_insertar.len()
        invariant
            0 <= f <= filas_a_insertar@.len(),
            coma@ == seq![','],
            r.deep_view() == espec_filas_insertadas(
                nombres_columnas.deep_view(),
                columnas_insertadas.deep_view(),
                filas_a_insertar.deep_view().subrange(0, f as int),
            ),
        decreases filas_a_insertar@.len() - f,
    {
        let ghost pref = filas_a_insertar.deep_view().subrange(0, f as int);
        proof {
            assert(filas_a_insertar.deep_view().subrange(0, f + 1 as int).drop_last()
                =~~= pref);
            assert(filas_a_insertar.deep_view().subrange(0, f + 1 as int).last()
                == filas_a_insertar.deep_view()[f as int]);
            assert(filas_a_insertar.deep_view()[f as int] == filas_a_insertar@[f as int]@);
        }
        let fila = chars_de_cadena(filas_a_insertar[f].as_str());
        let recortada = recortar_texto(&fila);
        let mut a: usize = 0;
        proof {
            assert(recortada@.subrange(0, recortada@.len() as int) =~= recortada@);
        }
        while a < recortada.len() && recortada[a] == '('
            invariant
                0 <= a <= recortada@.len(),
                sin_abres_iniciales(recortada@) == sin_abres_iniciales(
                    recortada@.subrange(a as int, recortada@.len() as int),
                ),
            decreases recortada@.len() - a,
        {
            proof {
                assert(recortada@.subrange(a as int, recortada@.len() as int).drop_first()
                    =~= recortada@.subrange(a + 1, recortada@.len() as int));
                assert(recortada@.subrange(a as int, recortada@.len() as int)[0]
                    == recortada@[a as int]);
            }
            a += 1;
        }
        proof {
            assert(recortada@.subrange(0, recortada@.len() as int) =~= recortada@);
            assert(sin_abres_iniciales(
                recortada@.subrange(a as int, recortada@.len() as int),
            ) =~= recortada@.subrange(a as int, recortada@.len() as int));
        }
        let mut b: usize = recortada.len();
        while b > a && recortada[b - 1] == ')'
            invariant
                a <= b <= recortada@.len(),
                sin_cierres_finales(recortada@.subrange(a as int, recortada@.len() as int))
                    == sin_cierres_finales(recortada@.subrange(a as int, b as int)),
            decreases b,
        {
            proof {
                assert(recortada@.subrange(a as int, b as int).drop_last() =~= recortada@
                    .subrange(a as int, b - 1));
                assert(recortada@.subrange(a as int, b as int).last() == recortada@[b - 1]);
            }
            b -= 1;
        }
        proof {
            assert(sin_cierres_finales(recortada@.subrange(a as int, b as int)) =~= recortada@
                .subrange(a as int, b as int));
        }
        let nucleo = subvec(&recortada, a, b);
        let piezas = dividir_texto(&nucleo, &coma);
        let mut valores: Vec<String> = Vec::new();
        let mut x: usize = 0;
        while x < piezas.len()
            invariant
                0 <= x <= piezas@.len(),
                valores.deep_view() == mapa_recorta(piezas.deep_view().subrange(0, x as int)),
            decreases piezas@.len() - x,
        {
            let ghost vp = piezas.deep_view().subrange(0, x as int);
            proof {
                assert(piezas.deep_view().subrange(0, x + 1 as int).drop_last() =~~= vp);
                assert(piezas.deep_view().subrange(0, x + 1 as int).last()
                    == piezas.deep_view()[x as int]);
                assert(piezas.deep_view()[x as int] == piezas@[x as int]@);
            }
            valores.push(cadena_de_chars(&recortar_texto(&piezas[x])));
            proof {
                assert(valores.deep_view() =~~= mapa_recorta(
                    piezas.deep_view().subrange(0, x + 1 as int),
                ));
            }
            x += 1;
        }
        proof {
            assert(piezas.deep_view().subrange(0, piezas.deep_view().len() as int)
                =~~= piezas.deep_view());
            assert(valores.deep_view() =~~= espec_valores_de_fila(
                filas_a_insertar.deep_view()[f as int],
            ));
        }
        let nueva = mapear_valores(columnas_insertadas, nombres_columnas, &valores);
        let chars_nueva: Vec<Vec<char>> = filas_de_cadenas(&nueva);
        let unida = crate::texto::unir_texto(&chars_nueva, &coma);
        let ghost r_antes = r.deep_view();
        r.push(cadena_de_chars(&unida));
        proof {
            assert(r.deep_view() =~~= r_antes.push(unida@));
            assert(r.deep_view() =~~= espec_filas_insertadas(
                nombres_columnas.deep_view(),
                columnas_insertadas.deep_view(),
                filas_a_insertar.deep_view().subrange(0, f + 1 as int),
            ));
        }
        f += 1;
    }
    proof {
        assert(filas_a_insertar.deep_view().subrange(
            0,
            filas_a_insertar.deep_view().len() as int,
        ) =~~= filas_a_insertar.deep_view());
    }
    r
}

/// The texts of a string vector, as character vectors.
fn filas_de_cadenas(vs: &Vec<String>) -> (r: Vec<Vec<char>>)
    ensures
        r.deep_view() == vs.deep_view(),
{
    let mut r: Vec<Vec<char>> = Vec::new();
    let mut i: usize = 0;
    while i < vs.len()
        invariant
            0 <= i <= vs@.len(),
            r.deep_view() == vs.deep_view().subrange(0, i as int),
        decreases vs@.len() - i,
    {
        proof {
            assert(vs.deep_view()[i as int] == vs@[i as int]@);
        }
        let ghost r_antes = r.deep_view();
        r.push(chars_de_cadena(vs[i].as_str()));
        proof {
            assert(r.deep_view() =~~= r_antes.push(vs.deep_view()[i as int]));
            assert(vs.deep_view().subrange(0, i + 1 as int) =~~= vs.deep_view().subrange(
                0,
                i as int,
            ).push(vs.deep_view()[i as int]));
            assert(r.deep_view() =~~= vs.deep_view().subrange(0, i + 1 as int));
        }
        i += 1;
    }
    proof {
        assert(vs.deep_view().subrange(0, vs.deep_view().len() as int) =~~= vs.deep_view());
    }
    r
}

} // verus!
