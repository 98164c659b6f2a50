//! Splitting a statement into quote-aware words, and building the path
//! of the file a table lives in.

use crate::cadena::{cadena_de_chars, chars_de_cadena};
use crate::texto::{buscar_ultimo, contiene, subvec, ultima_aparicion};
use vstd::prelude::*;

verus! {

/// The word-splitter's step: quotes are kept and suspend splitting.
pub struct EstadoPalabras {
    pub palabras: Seq<Seq<char>>,
    pub actual: Seq<char>,
    pub en_comillas: bool,
}

/// One splitter step on one character.
pub open spec fn paso_palabra(e: EstadoPalabras, c: char) -> EstadoPalabras {
    if c == '\'' {
        EstadoPalabras { actual: e.actual.push(c), en_comillas: !e.en_comillas, ..e }
    } else if crate::texto::es_blanco(c) && !e.en_comillas {
        if e.actual.len() > 0 {
            EstadoPalabras { palabras: e.palabras.push(e.actual), actual: Seq::empty(), ..e }
        } else {
            e
        }
    } else {
        EstadoPalabras { actual: e.actual.push(c), ..e }
    }
}

/// The splitter run over a whole text.
pub open spec fn corre_palabras(e: EstadoPalabras, s: Seq<char>) -> EstadoPalabras
    decreases s.len(),
{
    if s.len() == 0 {
        e
    } else {
        corre_palabras(paso_palabra(e, s[0]), s.drop_first())
    }
}

/// The quote-aware words of a statement.
pub open spec fn palabras_consulta(s: Seq<char>) -> Seq<Seq<char>> {
    let fin = corre_palabras(
        EstadoPalabras { palabras: Seq::empty(), actual: Seq::empty(), en_comillas: false },
        s,
    );
    if fin.actual.len() > 0 {
        fin.palabras.push(fin.actual)
    } else {
        fin.palabras
    }
}

/// Split a statement into words, keeping quoted stretches whole.
#[verifier::loop_isolation(false)]
pub fn split_consulta(consulta: &str) -> (r: Vec<String>)
    ensures
        r.deep_view() == palabras_consulta(consulta@),
{
    let s = chars_de_cadena(consulta);
    let mut palabras: Vec<String> = Vec::new();
    let mut actual: Vec<char> = Vec::new();
    let mut en_comillas = false;
    let mut i: usize = 0;
    proof {
        assert(s@.skip(0) =~= s@);
        assert(palabras.deep_view() =~~= Seq::<Seq<char>>::empty());
        assert(actual@ =~= Seq::<char>::empty());
        assert(EstadoPalabras {
            palabras: palabras.deep_view(),
            actual: actual@,
            en_comillas: en_comillas,
        } == EstadoPalabras {
            palabras: Seq::<Seq<char>>::empty(),
            actual: Seq::<char>::empty(),
            en_comillas: false,
        });
    }
    while i < s.len()
        invariant
            0 <= i <= s@.len(),
            corre_palabras(
                EstadoPalabras {
                    palabras: palabras.deep_view(),
                    actual: actual@,
                    en_comillas: en_comillas,
                },
                s@.skip(i as int),
            ) == corre_palabras(
                EstadoPalabras {
                    palabras: Seq::empty(),
                    actual: Seq::empty(),
                    en_comillas: false,
                },
                s@,
            ),
        decreases s@.len() - i,
    {
        let ghost antes = EstadoPalabras {
            palabras: palabras.deep_view(),
            actual: actual@,
            en_comillas: en_comillas,
        };
        proof {
            assert(s@.skip(i as int).drop_first() =~= s@.skip(i + 1));
            assert(s@.skip(i as int)[0] == s@[i as int]);
        }
        let c = s[i];
        if c == '\'' {
            actual.push(c);
            en_comillas = !en_comillas;
            proof {
                assert(actual@ =~= antes.actual.push(s@[i as int]));
            }
        } else if crate::texto::es_blanco_car(c) && !en_comillas {
            if actual.len() > 0 {
                palabras.push(cadena_de_chars(&actual));
                actual = Vec::new();
                proof {
                    assert(palabras.deep_view() =~~= antes.palabras.push(antes.actual));
                    assert(actual@ =~= Seq::<char>::empty());
                }
            }
        } else {
            actual.push(c);
            proof {
                assert(actual@ =~= antes.actual.push(s@[i as int]));
            }
        }
        proof {
            let despues = EstadoPalabras {
                palabras: palabras.deep_view(),
                actual: actual@,
                en_comillas: en_comillas,
            };
            assert(despues.palabras =~~= paso_palabra(antes, s@[i as int]).palabras);
            assert(despues.actual =~= paso_palabra(antes, s@[i as int]).actual);
            assert(despues == paso_palabra(antes, s@[i as int]));
        }
        i += 1;
    }
    proof {
        assert(s@.skip(s@.len() as int).len() == 0);
    }
    if actual.len() > 0 {
        let ghost antes_fin = palabras.deep_view();
        palabras.push(cadena_de_chars(&actual));
        proof {
            assert(palabras.deep_view() =~~= antes_fin.push(actual@));
        }
    }
    palabras
}

/// The operation a file-backed statement asks for, or why it is
/// refused without one.
#[derive(Debug, PartialEq, Eq, Structural, Clone, Copy)]
pub enum OperacionArchivo {
    Vacia,
    Incompleta,
    Seleccionar,
    Actualizar,
    Insertar,
    Borrar,
    NoValida,
}

/// Classify a statement by its quote-aware words: no word at all is an
/// empty statement, fewer than three an incomplete one; otherwise the
/// upper-cased first word picks the operation, and an unknown verb is
/// refused.
pub fn clasificar_consulta(consulta_sql: &str) -> (r: OperacionArchivo)
    ensures
        ({
            let ws = palabras_consulta(consulta_sql@);
            if ws.len() == 0 {
                r == OperacionArchivo::Vacia
            } else if ws.len() < 3 {
                r == OperacionArchivo::Incompleta
            } else {
                let verbo = crate::texto::mayusculas(ws[0]);
                if verbo == "SELECT"@ {
                    r == OperacionArchivo::Seleccionar
                } else if verbo == "UPDATE"@ {
                    r == OperacionArchivo::Actualizar
                } else if verbo == "INSERT"@ {
                    r == OperacionArchivo::Insertar
                } else if verbo == "DELETE"@ {
                    r == OperacionArchivo::Borrar
                } else {
                    r == OperacionArchivo::NoValida
                }
            }
        }),
{
    let partes = split_consulta(consulta_sql);
    if partes.len() == 0 {
        return OperacionArchivo::Vacia;
    }
    if partes.len() < 3 {
        return OperacionArchivo::Incompleta;
    }
    proof {
        assert(partes.deep_view()[0] == partes@[0]@);
        reveal_strlit("SELECT");
        reveal_strlit("UPDATE");
        reveal_strlit("INSERT");
        reveal_strlit("DELETE");
    }
    let primera = chars_de_cadena(partes[0].as_str());
    let verbo = crate::texto::mayusculas_de(&primera);
    let sel: Vec<char> = vec!['S', 'E', 'L', 'E', 'C', 'T'];
    let upd: Vec<char> = vec!['U', 'P', 'D', 'A', 'T', 'E'];
    let ins: Vec<char> = vec!['I', 'N', 'S', 'E', 'R', 'T'];
    let del: Vec<char> = vec!['D', 'E', 'L', 'E', 'T', 'E'];
    proof {
        assert(sel@ =~= "SELECT"@);
        assert(upd@ =~= "UPDATE"@);
        assert(ins@ =~= "INSERT"@);
        assert(del@ =~= "DELETE"@);
    }
    if crate::texto::textos_iguales(&verbo, &sel) {
        OperacionArchivo::Seleccionar
    } else if crate::texto::textos_iguales(&verbo, &upd) {
        OperacionArchivo::Actualizar
    } else if crate::texto::textos_iguales(&verbo, &ins) {
        OperacionArchivo::Insertar
    } else if crate::texto::textos_iguales(&verbo, &del) {
        OperacionArchivo::Borrar
    } else {
        OperacionArchivo::NoValida
    }
}

/// The file name without its extension: everything before the last dot,
/// when a dot follows the first character.
pub open spec fn sin_extension(nombre: Seq<char>) -> Seq<char> {
    let p = ultima_aparicion(nombre, '.');
    if p > 0 {
        nombre.subrange(0, p)
    } else {
        nombre
    }
}

/// The full path of a table's file: the directory, a separator, the
/// table name with its extension replaced by `csv`.
pub open spec fn ruta_archivo(dir: Seq<char>, nombre: Seq<char>) -> Seq<char> {
    dir + seq!['/'] + sin_extension(nombre) + ".csv"@
}

/// Build the path of the file a table lives in.
pub fn construir_ruta_archivo(ruta_directorio: &str, nombre_archivo: &str) -> (r: String)
    ensures
        r@ == ruta_archivo(ruta_directorio@, nombre_archivo@),
{
    let dir = chars_de_cadena(ruta_directorio);
    let nombre = chars_de_cadena(nombre_archivo);
    proof {
        crate::texto::lema_ultima_aparicion(nombre@, '.');
    }
    let tallo: Vec<char> = match buscar_ultimo(&nombre, '.') {
        Some(p) if p > 0 => subvec(&nombre, 0, p),
        _ => subvec(&nombre, 0, nombre.len()),
    };
    proof {
        assert(nombre@.subrange(0, nombre@.len() as int) =~= nombre@);
        reveal_strlit(".csv");
    }
    let mut r: Vec<char> = dir;
    r.push('/');
    let mut t = tallo;
    r.append(&mut t);
    r.push('.');
    r.push('c');
    r.push('s');
    r.push('v');
    proof {
        assert(r@ =~= ruta_archivo(ruta_directorio@, nombre_archivo@));
    }
    cadena_de_chars(&r)
}

} // verus!
