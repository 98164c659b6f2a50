//! The pure parts of the file-backed UPDATE: locating the assignment
//! list and applying it to one row.

use crate::cadena::{cadena_de_chars, chars_de_cadena};
use crate::texto::{
    dividir, dividir_texto, recortar, recortar_texto, subvec, textos_iguales, unir, unir_texto,
};
use vstd::prelude::*;

verus! {

/// `s` without leading or trailing single quotes.
pub open spec fn sin_comillas_bordes(s: Seq<char>) -> Seq<char> {
    sin_comillas_inicio(sin_comillas_fin(s))
}

/// `s` without leading single quotes.
pub open spec fn sin_comillas_inicio(s: Seq<char>) -> Seq<char>
    decreases s.len(),
{
    if s.len() > 0 && s[0] == '\'' {
        sin_comillas_inicio(s.drop_first())
    } else {
        s
    }
}

/// `s` without trailing single quotes.
pub open spec fn sin_comillas_fin(s: Seq<char>) -> Seq<char>
    decreases s.len(),
{
    if s.len() > 0 && s.last() == '\'' {
        sin_comillas_fin(s.drop_last())
    } else {
        s
    }
}

/// One assignment applied to a row's cells: the first header naming the
/// column picks the cell, the value loses its outer quotes; a malformed
/// piece or unknown or out-of-range column changes nothing.
pub open spec fn aplica_cambio(
    campos: Seq<Seq<char>>,
    cambio: Seq<char>,
    headers: Seq<Seq<char>>,
) -> Seq<Seq<char>> {
    let partes = dividir(cambio, seq!['=']);
    if partes.len() < 2 {
        campos
    } else {
        let col = recortar(partes[0]);
        let val = sin_comillas_bordes(recortar(partes[1]));
        let u = crate::bdd::nodo::primera_posicion(headers, col);
        if 0 <= u < campos.len() {
            campos.update(u, val)
        } else {
            campos
        }
    }
}

/// All assignments applied in order.
pub open spec fn aplica_cambios(
    campos: Seq<Seq<char>>,
    cambios: Seq<Seq<char>>,
    headers: Seq<Seq<char>>,
) -> Seq<Seq<char>>
    decreases cambios.len(),
{
    if cambios.len() == 0 {
        campos
    } else {
        aplica_cambio(aplica_cambios(campos, cambios.drop_last(), headers), cambios.last(), headers)
    }
}

/// A row after an assignment list is applied: its cells overwritten
/// column by column, re-joined with commas.
pub open spec fn espec_linea_cambiada(
    linea: Seq<char>,
    cambios: Seq<char>,
    headers: Seq<Seq<char>>,
) -> Seq<char> {
    unir(
        aplica_cambios(dividir(linea, seq![',']), dividir(cambios, seq![',']), headers),
        seq![','],
    )
}

/// Apply an assignment list (`col = val,...`) to one comma-separated row.
#[verifier::loop_isolation(false)]
pub fn aplicar_cambios_a_linea(linea: &str, cambios: &str, nombres_columnas: &Vec<String>) -> (r:
    String)
    ensures
        r@ == espec_linea_cambiada(linea@, cambios@, nombres_columnas.deep_view()),
{
    let l = chars_de_cadena(linea);
    let c = chars_de_cadena(cambios);
    let coma: Vec<char> = vec![','];
    let igual: Vec<char> = vec!['='];
    proof {
        assert(coma@ =~= seq![',']);
        assert(igual@ =~= seq!['=']);
    }
    let mut campos = dividir_texto(&l, &coma);
    let piezas = dividir_texto(&c, &coma);
    let ghost campos0 = campos.deep_view();
    let mut k: usize = 0;
    while k < piezas.len()
        invariant
            0 <= k <= piezas@.len(),
            igual@ == seq!['='],
            campos.deep_view() == aplica_cambios(
                campos0,
                piezas.deep_view().subrange(0, k as int),
                nombres_columnas.deep_view(),
            ),
        decreases piezas@.len() - k,
    {
        let ghost pref = piezas.deep_view().subrange(0, k as int);
        proof {
            assert(piezas.deep_view().subrange(0, k + 1 as int).drop_last() =~~= pref);
            assert(piezas.deep_view().subrange(0, k + 1 as int).last()
                == piezas.deep_view()[k as int]);
            assert(piezas.deep_view()[k as int] == piezas@[k as int]@);
        }
        let partes = dividir_texto(&piezas[k], &igual);
        if partes.len() >= 2 {
            proof {
                assert(partes.deep_view()[0] == partes@[0]@);
                assert(partes.deep_view()[1] == partes@[1]@);
            }
            let col = recortar_texto(&partes[0]);
            let bruto = recortar_texto(&partes[1]);
            let mut a: usize = 0;
            let mut b: usize = bruto.len();
            proof {
                assert(bruto@.subrange(0, bruto@.len() as int) =~= bruto@);
            }
            while b > a && bruto[b - 1] == '\''
                invariant
                    0 <= a <= b <= bruto@.len(),
                    a == 0,
                    sin_comillas_fin(bruto@) == sin_comillas_fin(bruto@.subrange(0, b as int)),
                decreases b,
            {
                proof {
                    assert(bruto@.subrange(0, b as int).drop_last() =~= bruto@.subrange(
                        0,
                        b - 1,
                    ));
                    assert(bruto@.subrange(0, b as int).last() == bruto@[b - 1]);
                }
                b -= 1;
            }
            proof {
                assert(bruto@.subrange(0, bruto@.len() as int) =~= bruto@);
                assert(sin_comillas_fin(bruto@.subrange(0, b as int)) =~= bruto@.subrange(
                    0,
                    b as int,
                ));
            }
            while a < b && bruto[a] == '\''
                invariant
                    0 <= a <= b <= bruto@.len(),
                    sin_comillas_fin(bruto@) == bruto@.subrange(0, b as int),
                    sin_comillas_inicio(sin_comillas_fin(bruto@)) == sin_comillas_inicio(
                        bruto@.subrange(a as int, b as int),
                    ),
                decreases b - a,
            {
                proof {
                    assert(bruto@.subrange(a as int, b as int).drop_first() =~= bruto@.subrange(
                        a + 1,
                        b as int,
                    ));
                    assert(bruto@.subrange(a as int, b as int)[0] == bruto@[a as int]);
                }
                a += 1;
            }
            proof {
                assert(bruto@.subrange(0, b as int).subrange(0, b as int) =~= bruto@.subrange(
                    0,
                    b as int,
                ));
                assert(sin_comillas_inicio(bruto@.subrange(a as int, b as int))
                    =~= bruto@.subrange(a as int, b as int));
            }
            let val = subvec(&bruto, a, b);
            match crate::bdd::nodo::buscar_posicion(nombres_columnas, &col) {
                Some(u) if u < campos.len() => {
                    let ghost campos_antes = campos.deep_view();
                    campos.remove(u);
                    campos.insert(u, val);
                    proof {
                        assert(campos.deep_view() =~~= campos_antes.update(
                            u as int,
                            bruto@.subrange(a as int, b as int),
                        ));
                    }
                },
                _ => {
                },
            }
        }
        proof {
            assert(campos.deep_view() =~~= aplica_cambios(
                campos0,
                piezas.deep_view().subrange(0, k + 1 as int),
                nombres_columnas.deep_view(),
            ));
        }
        k += 1;
    }
    proof {
        assert(piezas.deep_view().subrange(0, piezas.deep_view().len() as int)
            =~~= piezas.deep_view());
    }
    let unida = unir_texto(&campos, &coma);
    cadena_de_chars(&unida)
}

/// The assignment text of an UPDATE: the words between SET and WHERE,
/// re-joined with single spaces, and WHERE's position.
pub fn obtener_columnas_a_actualizar(words: &Vec<String>) -> (r: (String, usize))
    ensures
        ({
            let si = crate::parser_cql::parseo_consulta::indice_palabra_o_cero(
                words.deep_view(),
                "SET"@,
            );
            let wi = crate::parser_cql::parseo_consulta::indice_palabra_o_cero(
                words.deep_view(),
                "WHERE"@,
            );
            &&& r.1 == wi
            &&& r.0@ == crate::parser_cql::parseo_consulta::unir_rango(
                words.deep_view(),
                si + 1,
                wi,
            )
        }),
{
    let marca_set: Vec<char> = vec!['S', 'E', 'T'];
    let marca_where: Vec<char> = vec!['W', 'H', 'E', 'R', 'E'];
    proof {
        reveal_strlit("SET");
        reveal_strlit("WHERE");
        assert(marca_set@ =~= "SET"@);
        assert(marca_where@ =~= "WHERE"@);
    }
    let mut piezas: Vec<Vec<char>> = Vec::new();
    let mut k: usize = 0;
    while k < words.len()
        invariant
            0 <= k <= words@.len(),
            piezas.deep_view() == words.deep_view().subrange(0, k as int),
        decreases words@.len() - k,
    {
        proof {
            assert(words.deep_view()[k as int] == words@[k as int]@);
        }
        let ghost p_antes = piezas.deep_view();
        piezas.push(chars_de_cadena(words[k].as_str()));
        proof {
            assert(piezas.deep_view() =~~= p_antes.push(words@[k as int]@));
            assert(words.deep_view().subrange(0, k + 1 as int) =~~= words.deep_view().subrange(
                0,
                k as int,
            ).push(words.deep_view()[k as int]));
            assert(piezas.deep_view() =~~= words.deep_view().subrange(0, k + 1 as int));
        }
        k += 1;
    }
    proof {
        assert(words.deep_view().subrange(0, words.deep_view().len() as int)
            =~~= words.deep_view());
    }
    let set_index = crate::parser_cql::parseo_consulta::buscar_palabra_o_cero(
        &piezas,
        &marca_set,
    );
    let where_index = crate::parser_cql::parseo_consulta::buscar_palabra_o_cero(
        &piezas,
        &marca_where,
    );
    proof {
        crate::parser_cql::parseo_consulta::lema_indice_palabra(words.deep_view(), "SET"@);
        assert(words.deep_view().len() == words@.len());
        assert(set_index == 0 || set_index < words@.len());
    }
    let centro = crate::parser_cql::parseo_consulta::unir_rango_de(
        &piezas,
        set_index + 1,
        where_index,
    );
    (cadena_de_chars(&centro), where_index)
}

} // verus!
