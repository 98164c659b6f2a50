//! Search conditions of the file-backed query engine: tokenising,
//! parsing into a condition tree, and evaluating a row against it.

use crate::cadena::{cadena_de_chars, chars_de_cadena};
use crate::texto::{lex_menor, parsear_entero, textos_iguales, valor_entero, entero_acotado};
use vstd::prelude::*;

verus! {

/// A parsed condition: a comparison, or a combination of conditions.
#[derive(Debug)]
pub enum NodoAST {
    Comparacion { columna: String, operador: String, valor: String },
    Not(Box<NodoAST>),
    And(Box<NodoAST>, Box<NodoAST>),
    Or(Box<NodoAST>, Box<NodoAST>),
}

/// The tokeniser's step: what the machine holds mid-scan.
pub struct EstadoTokens {
    pub tokens: Seq<Seq<char>>,
    pub actual: Seq<char>,
    pub en_comillas: bool,
}

/// One tokeniser step on one character: blanks split tokens,
/// parentheses stand alone, comparison marks start a fresh token,
/// quotes delimit literal tokens.
pub open spec fn paso_token(e: EstadoTokens, c: char) -> EstadoTokens {
    if c == ' ' && !e.en_comillas {
        if e.actual.len() > 0 {
            EstadoTokens { tokens: e.tokens.push(e.actual), actual: Seq::empty(), ..e }
        } else {
            e
        }
    } else if (c == '(' || c == ')') && !e.en_comillas {
        let t = if e.actual.len() > 0 {
            e.tokens.push(e.actual)
        } else {
            e.tokens
        };
        EstadoTokens { tokens: t.push(seq![c]), actual: Seq::empty(), ..e }
    } else if (c == '=' || c == '!' || c == '<' || c == '>') && !e.en_comillas {
        let t = if e.actual.len() > 0 {
            e.tokens.push(e.actual)
        } else {
            e.tokens
        };
        EstadoTokens { tokens: t, actual: seq![c], ..e }
    } else if c == '\'' {
        if e.en_comillas {
            EstadoTokens { tokens: e.tokens.push(e.actual), actual: Seq::empty(), en_comillas: false }
        } else {
            let t = if e.actual.len() > 0 {
                e.tokens.push(e.actual)
            } else {
                e.tokens
            };
            EstadoTokens { tokens: t, actual: Seq::empty(), en_comillas: true }
        }
    } else {
        EstadoTokens { actual: e.actual.push(c), ..e }
    }
}

/// The tokeniser run over a whole text.
pub open spec fn corre_tokens(e: EstadoTokens, s: Seq<char>) -> EstadoTokens
    decreases s.len(),
{
    if s.len() == 0 {
        e
    } else {
        corre_tokens(paso_token(e, s[0]), s.drop_first())
    }
}

/// The tokens of a condition text: the machine's tokens, with any
/// unfinished token appended.
pub open spec fn tokens_de(s: Seq<char>) -> Seq<Seq<char>> {
    let fin = corre_tokens(
        EstadoTokens { tokens: Seq::empty(), actual: Seq::empty(), en_comillas: false },
        s,
    );
    if fin.actual.len() > 0 {
        fin.tokens.push(fin.actual)
    } else {
        fin.tokens
    }
}

/// Split a condition text into tokens.
#[verifier::loop_isolation(false)]
pub fn dividir_en_tokens(condicion: &str) -> (r: Result<Vec<String>, &'static str>)
    ensures
        r matches Ok(ts) && ts.deep_view() == tokens_de(condicion@),
{
    let s = chars_de_cadena(condicion);
    let mut tokens: Vec<String> = Vec::new();
    let mut actual: Vec<char> = Vec::new();
    let mut en_comillas = false;
    let mut i: usize = 0;
    proof {
        assert(s@.skip(0) =~= s@);
        assert(tokens.deep_view() =~~= Seq::<Seq<char>>::empty());
        assert(actual@ =~= Seq::<char>::empty());
        assert(EstadoTokens {
            tokens: tokens.deep_view(),
            actual: actual@,
            en_comillas: en_comillas,
        } == EstadoTokens {
            tokens: Seq::<Seq<char>>::empty(),
            actual: Seq::<char>::empty(),
            en_comillas: false,
        });
    }
    while i < s.len()
        invariant
            0 <= i <= s@.len(),
            corre_tokens(
                EstadoTokens {
                    tokens: tokens.deep_view(),
                    actual: actual@,
                    en_comillas: en_comillas,
                },
                s@.skip(i as int),
            ) == corre_tokens(
                EstadoTokens {
                    tokens: Seq::empty(),
                    actual: Seq::empty(),
                    en_comillas: false,
                },
                s@,
            ),
        decreases s@.len() - i,
    {
        let ghost antes = EstadoTokens {
            tokens: tokens.deep_view(),
            actual: actual@,
            en_comillas: en_comillas,
        };
        proof {
            assert(s@.skip(i as int).drop_first() =~= s@.skip(i + 1));
            assert(s@.skip(i as int)[0] == s@[i as int]);
        }
        let c = s[i];
        if c == ' ' && !en_comillas {
            if actual.len() > 0 {
                tokens.push(cadena_de_chars(&actual));
                actual = Vec::new();
                proof {
                    assert(tokens.deep_view() =~~= antes.tokens.push(antes.actual));
                }
            }
        } else if (c == '(' || c == ')') && !en_comillas {
            if actual.len() > 0 {
                tokens.push(cadena_de_chars(&actual));
                actual = Vec::new();
            }
            let mut solo: Vec<char> = Vec::new();
            solo.push(c);
            tokens.push(cadena_de_chars(&solo));
            proof {
                assert(solo@ =~= seq![s@[i as int]]);
                if antes.actual.len() > 0 {
                    assert(tokens.deep_view() =~~= antes.tokens.push(antes.actual).push(
                        seq![s@[i as int]],
                    ));
                } else {
                    assert(tokens.deep_view() =~~= antes.tokens.push(seq![s@[i as int]]));
                }
            }
        } else if (c == '=' || c == '!' || c == '<' || c == '>') && !en_comillas {
            if actual.len() > 0 {
                tokens.push(cadena_de_chars(&actual));
                actual = Vec::new();
                proof {
                    assert(tokens.deep_view() =~~= antes.tokens.push(antes.actual));
                }
            }
            actual = Vec::new();
            actual.push(c);
            proof {
                assert(actual@ =~= seq![s@[i as int]]);
            }
        } else if c == '\'' {
            if en_comillas {
                tokens.push(cadena_de_chars(&actual));
                actual = Vec::new();
                en_comillas = false;
                proof {
                    assert(tokens.deep_view() =~~= antes.tokens.push(antes.actual));
                }
            } else {
                if actual.len() > 0 {
                    tokens.push(cadena_de_chars(&actual));
                    actual = Vec::new();
                    proof {
                        assert(tokens.deep_view() =~~= antes.tokens.push(antes.actual));
                    }
                }
                actual = Vec::new();
                en_comillas = true;
            }
        } else {
            actual.push(c);
            proof {
                assert(actual@ =~= antes.actual.push(s@[i as int]));
            }
        }
        proof {
            let despues = EstadoTokens {
                tokens: tokens.deep_view(),
                actual: actual@,
                en_comillas: en_comillas,
            };
            assert(despues.tokens =~~= paso_token(antes, s@[i as int]).tokens);
            assert(despues.actual =~= paso_token(antes, s@[i as int]).actual);
            assert(despues.en_comillas == paso_token(antes, s@[i as int]).en_comillas);
            assert(despues == paso_token(antes, s@[i as int]));
        }
        i += 1;
    }
    proof {
        assert(s@.skip(s@.len() as int).len() == 0);
    }
    if actual.len() > 0 {
        let ghost antes_fin = tokens.deep_view();
        tokens.push(cadena_de_chars(&actual));
        proof {
            assert(tokens.deep_view() =~~= antes_fin.push(actual@));
        }
    }
    Ok(tokens)
}

/// What a comparison or combination answers on a row, or nothing when a
/// named column is missing or an operator is unknown.  Sides are
/// resolved to cells when they name a column, and compared as text.
pub open spec fn evalua_arbol(
    n: NodoAST,
    valores: Seq<Seq<char>>,
    columnas: Seq<Seq<char>>,
) -> Option<bool>
    decreases n,
{
    match n {
        NodoAST::Comparacion { columna, operador, valor } => {
            let ic = crate::bdd::nodo::primera_posicion(columnas, columna@);
            if ic < 0 || ic >= valores.len() {
                None
            } else {
                let vc = valores[ic];
                let iv = crate::bdd::nodo::primera_posicion(columnas, valor@);
                let comp = if 0 <= iv < valores.len() {
                    valores[iv]
                } else {
                    valor@
                };
                if operador@ == "="@ {
                    Some(vc == comp)
                } else if operador@ == "!="@ {
                    Some(vc != comp)
                } else if operador@ == "<"@ {
                    Some(lex_menor(vc, comp))
                } else if operador@ == ">"@ {
                    Some(lex_menor(comp, vc))
                } else if operador@ == "<="@ {
                    Some(!lex_menor(comp, vc))
                } else if operador@ == ">="@ {
                    Some(!lex_menor(vc, comp))
                } else {
                    None
                }
            }
        },
        NodoAST::Not(b) => match evalua_arbol(*b, valores, columnas) {
            Some(x) => Some(!x),
            None => None,
        },
        NodoAST::And(a, b) => match (evalua_arbol(*a, valores, columnas), evalua_arbol(
            *b,
            valores,
            columnas,
        )) {
            (Some(x), Some(y)) => Some(x && y),
            _ => None,
        },
        NodoAST::Or(a, b) => match (evalua_arbol(*a, valores, columnas), evalua_arbol(
            *b,
            valores,
            columnas,
        )) {
            (Some(x), Some(y)) => Some(x || y),
            _ => None,
        },
    }
}

/// Build the comparison at `indice`: three consecutive tokens.
pub fn parsear_condicion(tokens: &Vec<String>, indice: usize) -> (r: Result<
    (Box<NodoAST>, usize),
    &'static str,
>)
    ensures
        match r {
            Ok((nodo, fin)) => {
                &&& fin == indice + 3
                &&& fin <= tokens@.len()
                &&& *nodo matches NodoAST::Comparacion { columna, operador, valor } && columna@
                    == tokens.deep_view()[indice as int] && operador@ == tokens.deep_view()[indice
                    + 1] && valor@ == tokens.deep_view()[indice + 2]
            },
            Err(_) => tokens@.len() < indice + 3,
        },
{
    if tokens.len() < 3 || indice > tokens.len() - 3 {
        return Err("INVALID_SYNTAX: Estructura de condiciones incorrecta");
    }
    proof {
        assert(tokens.deep_view()[indice as int] == tokens@[indice as int]@);
        assert(tokens.deep_view()[indice + 1] == tokens@[indice + 1]@);
        assert(tokens.deep_view()[indice + 2] == tokens@[indice + 2]@);
    }
    Ok(
        (
            Box::new(
                NodoAST::Comparacion {
                    columna: tokens[indice].clone(),
                    operador: tokens[indice + 1].clone(),
                    valor: tokens[indice + 2].clone(),
                },
            ),
            indice + 3,
        ),
    )
}

/// Parse a factor: a negation, a parenthesised expression, or a
/// comparison.  A parse always consumes at least one token.
pub fn parsear_factor(tokens: &Vec<String>, indice: usize) -> (r: Result<
    (Box<NodoAST>, usize),
    &'static str,
>)
    ensures
        r matches Ok((_, fin)) ==> indice < fin <= tokens@.len(),
    decreases tokens@.len() - indice, 1int,
{
    if indice >= tokens.len() {
        return Err("INVALID_SYNTAX: Estructura de condiciones incorrecta");
    }
    let negacion = chars_de_cadena(tokens[indice].as_str());
    let no: Vec<char> = vec!['N', 'O', 'T'];
    let abre: Vec<char> = vec!['('];
    let cierra: Vec<char> = vec![')'];
    if textos_iguales(&negacion, &no) {
        match parsear_factor(tokens, indice + 1) {
            Ok((nodo, nuevo_indice)) => Ok((Box::new(NodoAST::Not(nodo)), nuevo_indice)),
            Err(e) => Err(e),
        }
    } else if textos_iguales(&negacion, &abre) {
        match parsear_expresion(tokens, indice + 1) {
            Ok((nodo, nuevo_indice)) => {
                if nuevo_indice < tokens.len() {
                    let siguiente = chars_de_cadena(tokens[nuevo_indice].as_str());
                    if textos_iguales(&siguiente, &cierra) {
                        Ok((nodo, nuevo_indice + 1))
                    } else {
                        Err("INVALID_SYNTAX: Estructura de condiciones incorrecta")
                    }
                } else {
                    Err("INVALID_SYNTAX: Estructura de condiciones incorrecta")
                }
            },
            Err(e) => Err(e),
        }
    } else {
        parsear_condicion(tokens, indice)
    }
}

/// Parse a term: factors joined by AND.
pub fn parsear_termino(tokens: &Vec<String>, indice: usize) -> (r: Result<
    (Box<NodoAST>, usize),
    &'static str,
>)
    ensures
        r matches Ok((_, fin)) ==> indice < fin <= tokens@.len(),
    decreases tokens@.len() - indice, 2int,
{
    let (mut nodo_izq, mut indice_actual) = match parsear_factor(tokens, indice) {
        Ok(p) => p,
        Err(e) => {
            return Err(e);
        },
    };
    let y_texto: Vec<char> = vec!['A', 'N', 'D'];
    while indice_actual < tokens.len()
        invariant
            indice < indice_actual <= tokens@.len(),
            y_texto@ == seq!['A', 'N', 'D'],
        decreases tokens@.len() - indice_actual,
    {
        let palabra = chars_de_cadena(tokens[indice_actual].as_str());
        if textos_iguales(&palabra, &y_texto) {
            match parsear_factor(tokens, indice_actual + 1) {
                Ok((nodo_der, nuevo_indice)) => {
                    nodo_izq = Box::new(NodoAST::And(nodo_izq, nodo_der));
                    indice_actual = nuevo_indice;
                },
                Err(e) => {
                    return Err(e);
                },
            }
        } else {
            return Ok((nodo_izq, indice_actual));
        }
    }
    Ok((nodo_izq, indice_actual))
}

/// Parse an expression: terms joined by AND or OR.
pub fn parsear_expresion(tokens: &Vec<String>, indice: usize) -> (r: Result<
    (Box<NodoAST>, usize),
    &'static str,
>)
    ensures
        r matches Ok((_, fin)) ==> indice < fin <= tokens@.len(),
    decreases tokens@.len() - indice, 3int,
{
    let (mut nodo_izq, mut indice_actual) = match parsear_termino(tokens, indice) {
        Ok(p) => p,
        Err(e) => {
            return Err(e);
        },
    };
    let y_texto: Vec<char> = vec!['A', 'N', 'D'];
    let o_texto: Vec<char> = vec!['O', 'R'];
    while indice_actual < tokens.len()
        invariant
            indice < indice_actual <= tokens@.len(),
            y_texto@ == seq!['A', 'N', 'D'],
            o_texto@ == seq!['O', 'R'],
        decreases tokens@.len() - indice_actual,
    {
        let palabra = chars_de_cadena(tokens[indice_actual].as_str());
        let es_y = textos_iguales(&palabra, &y_texto);
        let es_o = textos_iguales(&palabra, &o_texto);
        if es_y || es_o {
            match parsear_termino(tokens, indice_actual + 1) {
                Ok((nodo_der, nuevo_indice)) => {
                    if es_y {
                        nodo_izq = Box::new(NodoAST::And(nodo_izq, nodo_der));
                    } else {
                        nodo_izq = Box::new(NodoAST::Or(nodo_izq, nodo_der));
                    }
                    indice_actual = nuevo_indice;
                },
                Err(e) => {
                    return Err(e);
                },
            }
        } else {
            return Ok((nodo_izq, indice_actual));
        }
    }
    Ok((nodo_izq, indice_actual))
}

/// Parse a whole token list into a condition tree.
pub fn parsear_tokens_a_ast(tokens: &Vec<String>) -> (r: Result<Box<NodoAST>, &'static str>)
{
    match parsear_expresion(tokens, 0) {
        Ok((nodo, _)) => Ok(nodo),
        Err(e) => Err(e),
    }
}

/// Evaluate a condition tree on one comma-separated row.
pub fn evaluar_ast(nodo: &NodoAST, linea: &str, nombres_columnas: &Vec<String>) -> (r: Result<
    bool,
    &'static str,
>)
    ensures
        match r {
            Ok(b) => evalua_arbol(
                *nodo,
                crate::bdd::tabla::celdas(linea@),
                nombres_columnas.deep_view(),
            ) == Some(b),
            Err(_) => evalua_arbol(
                *nodo,
                crate::bdd::tabla::celdas(linea@),
                nombres_columnas.deep_view(),
            ) is None,
        },
{
    let l = chars_de_cadena(linea);
    let coma: Vec<char> = vec![','];
    proof {
        assert(coma@ =~= seq![',']);
    }
    let valores = crate::texto::dividir_texto(&l, &coma);
    evaluar_valores(nodo, &valores, nombres_columnas)
}

/// Evaluate a condition tree on already split cells.
pub fn evaluar_valores(
    nodo: &NodoAST,
    valores: &Vec<Vec<char>>,
    nombres_columnas: &Vec<String>,
) -> (r: Result<bool, &'static str>)
    ensures
        match r {
            Ok(b) => evalua_arbol(*nodo, valores.deep_view(), nombres_columnas.deep_view())
                == Some(b),
            Err(_) => evalua_arbol(*nodo, valores.deep_view(), nombres_columnas.deep_view())
                is None,
        },
    decreases *nodo,
{
    proof {
        assert(valores.deep_view().len() == valores@.len());
    }
    match nodo {
        NodoAST::Comparacion { columna, operador, valor } => {
            proof {
                assert(*nodo == (NodoAST::Comparacion {
                    columna: *columna,
                    operador: *operador,
                    valor: *valor,
                }));
            }
            let col_chars = chars_de_cadena(columna.as_str());
            let ic = match crate::bdd::nodo::buscar_posicion(nombres_columnas, &col_chars) {
                Some(i) => i,
                None => {
                    return Err("INVALID_COLUMN: Columna no encontrada");
                },
            };
            if ic >= valores.len() {
                return Err("INVALID_COLUMN: Columna no encontrada");
            }
            let vc = &valores[ic];
            proof {
                assert(valores.deep_view()[ic as int] == valores@[ic as int]@);
            }
            let val_chars = chars_de_cadena(valor.as_str());
            let comp: Vec<char> = match crate::bdd::nodo::buscar_posicion(
                nombres_columnas,
                &val_chars,
            ) {
                Some(iv) if iv < valores.len() => {
                    proof {
                        assert(valores.deep_view()[iv as int] == valores@[iv as int]@);
                    }
                    let c = crate::texto::subvec(&valores[iv], 0, valores[iv].len());
                    proof {
                        assert(c@ =~= valores.deep_view()[iv as int]);
                    }
                    c
                },
                _ => {
                    let c = crate::texto::subvec(&val_chars, 0, val_chars.len());
                    proof {
                        assert(c@ =~= valor@);
                    }
                    c
                },
            };
            proof {
                assert(vc@ == valores.deep_view()[ic as int]);
            }
            proof {
                reveal_strlit("=");
                reveal_strlit("!=");
                reveal_strlit("<");
                reveal_strlit(">");
                reveal_strlit("<=");
                reveal_strlit(">=");
            }
            let op_chars = chars_de_cadena(operador.as_str());
            let igual: Vec<char> = vec!['='];
            let distinto: Vec<char> = vec!['!', '='];
            let menor: Vec<char> = vec!['<'];
            let mayor: Vec<char> = vec!['>'];
            let menor_igual: Vec<char> = vec!['<', '='];
            let mayor_igual: Vec<char> = vec!['>', '='];
            proof {
                assert(igual@ =~= "="@);
                assert(distinto@ =~= "!="@);
                assert(menor@ =~= "<"@);
                assert(mayor@ =~= ">"@);
                assert(menor_igual@ =~= "<="@);
                assert(mayor_igual@ =~= ">="@);
            }
            if textos_iguales(&op_chars, &igual) {
                Ok(textos_iguales(vc, &comp))
            } else if textos_iguales(&op_chars, &distinto) {
                Ok(!textos_iguales(vc, &comp))
            } else if textos_iguales(&op_chars, &menor) {
                Ok(crate::texto::comparar_lex(vc, &comp) == -1)
            } else if textos_iguales(&op_chars, &mayor) {
                Ok(crate::texto::comparar_lex(vc, &comp) == 1)
            } else if textos_iguales(&op_chars, &menor_igual) {
                Ok(crate::texto::comparar_lex(vc, &comp) != 1)
            } else if textos_iguales(&op_chars, &mayor_igual) {
                Ok(crate::texto::comparar_lex(vc, &comp) != -1)
            } else {
                Err("ERROR: Operador no soportado")
            }
        },
        NodoAST::Not(b) => {
            match evaluar_valores(b, valores, nombres_columnas) {
                Ok(x) => Ok(!x),
                Err(e) => Err(e),
            }
        },
        NodoAST::And(a, b) => {
            let ra = match evaluar_valores(a, valores, nombres_columnas) {
                Ok(x) => x,
                Err(e) => {
                    return Err(e);
                },
            };
            let rb = match evaluar_valores(b, valores, nombres_columnas) {
                Ok(x) => x,
                Err(e) => {
                    return Err(e);
                },
            };
            Ok(ra && rb)
        },
        NodoAST::Or(a, b) => {
            let ra = match evaluar_valores(a, valores, nombres_columnas) {
                Ok(x) => x,
                Err(e) => {
                    return Err(e);
                },
            };
            let rb = match evaluar_valores(b, valores, nombres_columnas) {
                Ok(x) => x,
                Err(e) => {
                    return Err(e);
                },
            };
            Ok(ra || rb)
        },
    }
}

/// Whether a row passes a condition text: tokenise, parse, evaluate.
pub fn evaluar_condiciones(
    linea: &str,
    condicion: &str,
    nombres_columnas: &Vec<String>,
) -> (r: Result<bool, &'static str>)
{
    let tokens = match dividir_en_tokens(condicion) {
        Ok(t) => t,
        Err(e) => {
            return Err(e);
        },
    };
    let ast = match parsear_tokens_a_ast(&tokens) {
        Ok(a) => a,
        Err(e) => {
            return Err(e);
        },
    };
    evaluar_ast(&ast, linea, nombres_columnas)
}

} // verus!
