//! The client protocol: 9-byte header frames carrying STARTUP, READY,
//! QUERY and RESULT messages.

use crate::cadena::{bytes_de_cadena, cadena_de_bytes, cadena_de_chars, chars_de_cadena};
use crate::serial_deserial::bytes::{
    be16, be32, de16, de32, empujar_be16, empujar_be32, empujar_bytes, leer_be16, leer_be32,
    lema_be16, lema_be32, subbytes,
};
use crate::serial_deserial::level_consistency::LevelConsistency;
use crate::texto::dividir;
use vstd::prelude::*;
use vstd::utf8::{decode_utf8, encode_utf8, valid_utf8};

verus! {

/// Why a frame was rejected.
#[derive(Debug, PartialEq, Eq, Structural, Clone, Copy)]
pub enum ErrorTrama {
    Malformada,
    OpcodeDesconocido,
    Utf8,
}

/// A client-protocol header: version, flags, stream, opcode, body length.
pub open spec fn espec_header(version: u8, flags: u8, stream_id: u16, op: i8, largo: u32) -> Seq<
    u8,
> {
    seq![version, flags] + be16(stream_id) + seq![op as u8] + be32(largo)
}

/// A whole QUERY frame: the statement's bytes, the consistency mark and
/// a flags byte under a request header.
pub open spec fn espec_trama_query(q: Seq<char>, cons: u16, flags: u8) -> Seq<u8> {
    let bytes = encode_utf8(q);
    espec_header(4, 0, 0, 7, (bytes.len() + 7) as u32) + be32(bytes.len() as u32) + bytes + be16(
        cons,
    ) + seq![flags]
}

/// What decoding a client frame yields: the statement text and
/// consistency of a QUERY, the protocol banner of a STARTUP, or the
/// error that rejects the frame.
pub open spec fn decodifica_consulta(t: Seq<u8>) -> Result<(Seq<char>, u16, i8), ErrorTrama> {
    if t.len() < 9 {
        Err(ErrorTrama::Malformada)
    } else {
        let op = t[4] as i8;
        let blen = de32(t[5], t[6], t[7], t[8]);
        if blen >= 0x8000_0000 || t.len() < 9 + blen {
            Err(ErrorTrama::Malformada)
        } else {
            let cuerpo = t.subrange(9, 9 + blen);
            if op == 7 {
                if cuerpo.len() < 4 {
                    Err(ErrorTrama::Malformada)
                } else {
                    let qlen = de32(cuerpo[0], cuerpo[1], cuerpo[2], cuerpo[3]);
                    if qlen >= 0x8000_0000 || 4 + qlen + 2 > cuerpo.len() {
                        Err(ErrorTrama::Malformada)
                    } else {
                        let qb = cuerpo.subrange(4, 4 + qlen);
                        if valid_utf8(qb) {
                            Ok(
                                (
                                    decode_utf8(qb),
                                    de16(cuerpo[4 + qlen], cuerpo[4 + qlen + 1]),
                                    7i8,
                                ),
                            )
                        } else {
                            Err(ErrorTrama::Utf8)
                        }
                    }
                }
            } else if op == 1 {
                if cuerpo.len() < 4 {
                    Err(ErrorTrama::Malformada)
                } else {
                    let lv = de16(cuerpo[2], cuerpo[3]);
                    if 4 + lv + 2 > cuerpo.len() {
                        Err(ErrorTrama::Malformada)
                    } else {
                        let cql = cuerpo.subrange(4, 4 + lv);
                        let lv2 = de16(cuerpo[4 + lv], cuerpo[4 + lv + 1]);
                        if 4 + lv + 2 + lv2 > cuerpo.len() {
                            Err(ErrorTrama::Malformada)
                        } else {
                            let ver = cuerpo.subrange(4 + lv + 2, 4 + lv + 2 + lv2);
                            if valid_utf8(cql) && valid_utf8(ver) {
                                Ok(
                                    (
                                        decode_utf8(cql) + " - "@ + decode_utf8(ver),
                                        0u16,
                                        1i8,
                                    ),
                                )
                            } else {
                                Err(ErrorTrama::Utf8)
                            }
                        }
                    }
                }
            } else {
                Err(ErrorTrama::OpcodeDesconocido)
            }
        }
    }
}

/// Build a client-protocol header.
pub fn serializar_header(version: u8, flags: u8, stream_id: u16, op_code: i8, lenght: i32) -> (r:
    Vec<u8>)
    ensures
        r@ == espec_header(version, flags, stream_id, op_code, lenght as u32),
{
    let mut header: Vec<u8> = Vec::new();
    header.push(version);
    header.push(flags);
    empujar_be16(&mut header, stream_id);
    header.push(op_code as u8);
    empujar_be32(&mut header, lenght as u32);
    proof {
        assert(header@ =~= espec_header(version, flags, stream_id, op_code, lenght as u32));
    }
    header
}

/// Build a QUERY frame around a statement.
pub fn query_to_bytes_client_server(
    consulta_cql: &str,
    consistencia: LevelConsistency,
    flags_query: u8,
) -> (r: Vec<u8>)
    requires
        encode_utf8(consulta_cql@).len() + 7 < 0x8000_0000,
    ensures
        ({
            let cons: u16 = if consistencia == LevelConsistency::Strong {
                4
            } else {
                1
            };
            r@ == espec_trama_query(consulta_cql@, cons, flags_query)
        }),
{
    let cuerpo_bytes = bytes_de_cadena(consulta_cql);
    let valor = consistencia.valor();
    let largo_cuerpo = cuerpo_bytes.len() + 7;
    let mut r = serializar_header(4, 0, 0, 7, largo_cuerpo as i32);
    empujar_be32(&mut r, cuerpo_bytes.len() as u32);
    empujar_bytes(&mut r, &cuerpo_bytes);
    empujar_be16(&mut r, valor);
    r.push(flags_query);
    proof {
        let cons: u16 = if consistencia == LevelConsistency::Strong {
            4
        } else {
            1
        };
        assert(r@ =~= espec_trama_query(consulta_cql@, cons, flags_query));
    }
    r
}

/// Decode a client frame: a QUERY's statement and consistency, or a
/// STARTUP's banner.
pub fn deserializar_consulta(trama: &Vec<u8>) -> (r: Result<(String, u16, i8), String>)
    ensures
        match r {
            Ok((s, cons, op)) => decodifica_consulta(trama@) == Ok::<_, ErrorTrama>(
                (s@, cons, op),
            ),
            Err(_) => decodifica_consulta(trama@) is Err,
        },
{
    if trama.len() < 9 {
        return Err("Cantidad incorrecta de bytes en el header del mensaje.".to_string());
    }
    let op: i8 = trama[4] as i8;
    let blen = leer_be32(trama, 5);
    if blen >= 0x8000_0000 {
        return Err("Cantidad incorrecta de bytes en el body del mensaje.".to_string());
    }
    let blen_usize = blen as usize;
    if trama.len() < 9 + blen_usize {
        return Err("Cantidad incorrecta de bytes en el body del mensaje.".to_string());
    }
    let cuerpo = subbytes(trama, 9, 9 + blen_usize);
    if op == 7 {
        if cuerpo.len() < 4 {
            return Err("Cantidad incorrecta de bytes en el body del mensaje.".to_string());
        }
        let qlen = leer_be32(&cuerpo, 0);
        if qlen >= 0x8000_0000 {
            return Err("Cantidad incorrecta de bytes en el body del mensaje.".to_string());
        }
        let qlen_usize = qlen as usize;
        if qlen_usize > cuerpo.len() || cuerpo.len() - qlen_usize < 6 {
            return Err("Cantidad incorrecta de bytes en el body del mensaje.".to_string());
        }
        let qb = subbytes(&cuerpo, 4, 4 + qlen_usize);
        let consist = leer_be16(&cuerpo, 4 + qlen_usize);
        match cadena_de_bytes(qb) {
            Ok(s) => Ok((s, consist, op)),
            Err(e) => Err(e),
        }
    } else if op == 1 {
        if cuerpo.len() < 4 {
            return Err("Cantidad incorrecta de bytes en el body del mensaje.".to_string());
        }
        let lv = leer_be16(&cuerpo, 2) as usize;
        if lv > cuerpo.len() || cuerpo.len() - lv < 6 {
            return Err("Cantidad incorrecta de bytes en el body del mensaje.".to_string());
        }
        let cql = subbytes(&cuerpo, 4, 4 + lv);
        let lv2 = leer_be16(&cuerpo, 4 + lv) as usize;
        if lv2 > cuerpo.len() || 4 + lv + 2 > cuerpo.len() - lv2 {
            return Err("Cantidad incorrecta de bytes en el body del mensaje.".to_string());
        }
        let ver = subbytes(&cuerpo, 4 + lv + 2, 4 + lv + 2 + lv2);
        let cql_texto = match cadena_de_bytes(cql) {
            Ok(s) => s,
            Err(e) => {
                return Err(e);
            },
        };
        let ver_texto = match cadena_de_bytes(ver) {
            Ok(s) => s,
            Err(e) => {
                return Err(e);
            },
        };
        let mut m = chars_de_cadena(cql_texto.as_str());
        let mut medio = chars_de_cadena(" - ");
        m.append(&mut medio);
        let mut v = chars_de_cadena(ver_texto.as_str());
        m.append(&mut v);
        proof {
            reveal_strlit(" - ");
        }
        Ok((cadena_de_chars(&m), 0, op))
    } else {
        Err("Tipo de consulta no soportado.".to_string())
    }
}

/// Decoding a QUERY frame built from a statement restores the statement,
/// its consistency mark and the QUERY opcode exactly.
pub proof fn lema_ida_y_vuelta_consulta(q: Seq<char>, cons: u16, flags: u8)
    requires
        encode_utf8(q).len() + 7 < 0x8000_0000,
    ensures
        decodifica_consulta(espec_trama_query(q, cons, flags)) == Ok::<_, ErrorTrama>(
            (q, cons, 7i8),
        ),
{
    broadcast use vstd::utf8::encode_utf8_valid_utf8, vstd::utf8::encode_utf8_decode_utf8;

    let bytes = encode_utf8(q);
    let t = espec_trama_query(q, cons, flags);
    let blen: u32 = (bytes.len() + 7) as u32;
    assert(t.len() == 9 + 4 + bytes.len() + 2 + 1);
    assert(t[4] == 7u8);
    assert(t[4] as i8 == 7i8);
    lema_be32(blen, 0, 0, 0, 0);
    assert(t[5] == (blen >> 24) as u8);
    assert(t[6] == (blen >> 16) as u8);
    assert(t[7] == (blen >> 8) as u8);
    assert(t[8] == blen as u8);
    assert(de32(t[5], t[6], t[7], t[8]) == blen);
    let cuerpo = t.subrange(9, 9 + blen);
    assert(cuerpo.len() == 4 + bytes.len() + 3);
    let qlen: u32 = bytes.len() as u32;
    lema_be32(qlen, 0, 0, 0, 0);
    assert(cuerpo[0] == (qlen >> 24) as u8);
    assert(cuerpo[1] == (qlen >> 16) as u8);
    assert(cuerpo[2] == (qlen >> 8) as u8);
    assert(cuerpo[3] == qlen as u8);
    assert(de32(cuerpo[0], cuerpo[1], cuerpo[2], cuerpo[3]) == qlen);
    let qb = cuerpo.subrange(4, 4 + qlen);
    assert(qb =~= bytes);
    assert(valid_utf8(bytes));
    assert(decode_utf8(bytes) == q);
    lema_be16(cons, 0, 0);
    assert(cuerpo[4 + qlen] == (cons >> 8) as u8);
    assert(cuerpo[4 + qlen + 1] == cons as u8);
    assert(de16(cuerpo[4 + qlen], cuerpo[4 + qlen + 1]) == cons);
}

/// The cells of a response row, on the wire: an empty cell is the null
/// marker, any other cell its length and bytes.
pub open spec fn celdas_bytes(cels: Seq<Seq<char>>) -> Seq<u8>
    decreases cels.len(),
{
    if cels.len() == 0 {
        Seq::empty()
    } else {
        celdas_bytes(cels.drop_last()) + (if cels.last().len() == 0 {
            seq![255u8, 255u8, 255u8, 255u8]
        } else {
            be32(encode_utf8(cels.last()).len() as u32) + encode_utf8(cels.last())
        })
    }
}

/// All rows of a response, on the wire: each row's comma-separated
/// cells, one after another.
pub open spec fn filas_bytes(filas: Seq<Seq<char>>) -> Seq<u8>
    decreases filas.len(),
{
    if filas.len() == 0 {
        Seq::empty()
    } else {
        filas_bytes(filas.drop_last()) + celdas_bytes(dividir(filas.last(), seq![',']))
    }
}

/// Append one row's cells to the wire.
#[verifier::loop_isolation(false)]
pub fn empujar_celdas(salida: &mut Vec<u8>, fila: &str)
    requires
        forall|k: int|
            0 <= k < dividir(fila@, seq![',']).len() ==> encode_utf8(
                #[trigger] dividir(fila@, seq![','])[k],
            ).len() < 0x8000_0000,
    ensures
        final(salida)@ == old(salida)@ + celdas_bytes(dividir(fila@, seq![','])),
{
    let f = chars_de_cadena(fila);
    let coma: Vec<char> = vec![','];
    proof {
        assert(coma@ =~= seq![',']);
    }
    let cels = crate::texto::dividir_texto(&f, &coma);
    let mut k: usize = 0;
    while k < cels.len()
        invariant
            0 <= k <= cels@.len(),
            cels.deep_view() == dividir(fila@, seq![',']),
            forall|g: int|
                0 <= g < cels.deep_view().len() ==> encode_utf8(
                    #[trigger] cels.deep_view()[g],
                ).len() < 0x8000_0000,
            salida@ == old(salida)@ + celdas_bytes(cels.deep_view().subrange(0, k as int)),
        decreases cels@.len() - k,
    {
        let ghost pref = cels.deep_view().subrange(0, k as int);
        proof {
            assert(cels.deep_view().subrange(0, k + 1 as int).drop_last() =~~= pref);
            assert(cels.deep_view().subrange(0, k + 1 as int).last()
                == cels.deep_view()[k as int]);
            assert(cels.deep_view()[k as int] == cels@[k as int]@);
        }
        if cels[k].len() == 0 {
            salida.push(255);
            salida.push(255);
            salida.push(255);
            salida.push(255);
            proof {
                assert(salida@ =~= old(salida)@ + celdas_bytes(
                    cels.deep_view().subrange(0, k + 1 as int),
                ));
            }
        } else {
            let celda_cadena = cadena_de_chars(&cels[k]);
            let celda_bytes = bytes_de_cadena(celda_cadena.as_str());
            empujar_be32(salida, celda_bytes.len() as u32);
            empujar_bytes(salida, &celda_bytes);
            proof {
                assert(salida@ =~= old(salida)@ + celdas_bytes(
                    cels.deep_view().subrange(0, k + 1 as int),
                ));
            }
        }
        k += 1;
    }
    proof {
        assert(cels.deep_view().subrange(0, cels.deep_view().len() as int)
            =~~= cels.deep_view());
    }
}

/// A RESULT frame body: VOID carries two zero bytes; ROWS carries the
/// metadata flag, the column and row counts and the rows.
pub open spec fn espec_cuerpo_result(filas: Seq<Seq<char>>, kind: i32) -> Seq<u8> {
    be32(kind as u32) + (if kind == 2 {
        be32(4) + (if filas.len() == 0 {
            be32(0) + be32(0)
        } else {
            be32(dividir(filas[0], seq![',']).len() as u32) + be32(filas.len() as u32)
                + filas_bytes(filas)
        })
    } else {
        seq![0u8, 0u8]
    })
}

/// Build a RESULT frame around response rows.
#[verifier::loop_isolation(false)]
pub fn result_to_bytes_server_client(respuesta: &Vec<String>, kind: i32) -> (r: Result<
    Vec<u8>,
    String,
>)
    requires
        forall|f: int, k: int|
            0 <= f < respuesta.deep_view().len() && 0 <= k < dividir(
                respuesta.deep_view()[f],
                seq![','],
            ).len() ==> encode_utf8(
                #[trigger] dividir(#[trigger] respuesta.deep_view()[f], seq![','])[k],
            ).len() < 0x8000_0000,
        respuesta@.len() < 0x8000_0000,
        espec_cuerpo_result(respuesta.deep_view(), kind).len() < 0x8000_0000,
        respuesta.deep_view().len() > 0 ==> dividir(respuesta.deep_view()[0], seq![',']).len()
            < 0x8000_0000,
    ensures
        r is Ok,
        r matches Ok(t) ==> t@ == espec_header(
            0x84,
            0,
            0,
            8,
            espec_cuerpo_result(respuesta.deep_view(), kind).len() as u32,
        ) + espec_cuerpo_result(respuesta.deep_view(), kind),
{
    let mut cuerpo: Vec<u8> = Vec::new();
    empujar_be32(&mut cuerpo, kind as u32);
    if kind == 2 {
        empujar_be32(&mut cuerpo, 4);
        if respuesta.len() == 0 {
            empujar_be32(&mut cuerpo, 0);
            empujar_be32(&mut cuerpo, 0);
        } else {
            proof {
                assert(respuesta.deep_view()[0] == respuesta@[0]@);
            }
            let primera = chars_de_cadena(respuesta[0].as_str());
            let coma: Vec<char> = vec![','];
            proof {
                assert(coma@ =~= seq![',']);
            }
            let cels0 = crate::texto::dividir_texto(&primera, &coma);
            proof {
                crate::texto::lema_dividir_no_vacio(respuesta.deep_view()[0], seq![',']);
                assert(cels0.deep_view().len() <= primera@.len() + 1) by {
                    lema_cota_dividir(respuesta.deep_view()[0], seq![',']);
                }
            }
            empujar_be32(&mut cuerpo, cels0.len() as u32);
            empujar_be32(&mut cuerpo, respuesta.len() as u32);
            let mut f: usize = 0;
            let ghost base = cuerpo@;
            while f < respuesta.len()
                invariant
                    0 <= f <= respuesta@.len(),
                    cuerpo@ == base + filas_bytes(respuesta.deep_view().subrange(0, f as int)),
                    forall|ff: int, k: int|
                        0 <= ff < respuesta.deep_view().len() && 0 <= k < dividir(
                            respuesta.deep_view()[ff],
                            seq![','],
                        ).len() ==> encode_utf8(
                            #[trigger] dividir(
                                #[trigger] respuesta.deep_view()[ff],
                                seq![','],
                            )[k],
                        ).len() < 0x8000_0000,
                decreases respuesta@.len() - f,
            {
                let ghost pref = respuesta.deep_view().subrange(0, f as int);
                proof {
                    assert(respuesta.deep_view().subrange(0, f + 1 as int).drop_last()
                        =~~= pref);
                    assert(respuesta.deep_view().subrange(0, f + 1 as int).last()
                        == respuesta.deep_view()[f as int]);
                    assert(respuesta.deep_view()[f as int] == respuesta@[f as int]@);
                }
                empujar_celdas(&mut cuerpo, respuesta[f].as_str());
                proof {
                    assert(cuerpo@ =~= base + filas_bytes(
                        respuesta.deep_view().subrange(0, f + 1 as int),
                    ));
                }
                f += 1;
            }
            proof {
                assert(respuesta.deep_view().subrange(0, respuesta.deep_view().len() as int)
                    =~~= respuesta.deep_view());
            }
        }
    } else {
        cuerpo.push(0);
        cuerpo.push(0);
    }
    proof {
        assert(cuerpo@ =~= espec_cuerpo_result(respuesta.deep_view(), kind));
        assert(cuerpo@.len() < 0x8000_0000);
    }
    let largo = cuerpo.len();
    let mut r = serializar_header(0x84, 0, 0, 8, largo as i32);
    empujar_bytes(&mut r, &cuerpo);
    Ok(r)
}

/// Splitting cannot yield more pieces than characters plus one.
pub proof fn lema_cota_dividir(s: Seq<char>, sep: Seq<char>)
    requires
        sep.len() > 0,
    ensures
        dividir(s, sep).len() <= s.len() + 1,
    decreases s.len(),
{
    crate::texto::lema_primera_ocurrencia(s, sep);
    let i = crate::texto::primera_ocurrencia(s, sep);
    if i >= 0 && i + sep.len() <= s.len() {
        lema_cota_dividir(s.subrange(i + sep.len(), s.len() as int), sep);
    }
}

/// Build a READY frame: a bare response header.
pub fn serializar_ready_server_client() -> (r: Vec<u8>)
    ensures
        r@ == espec_header(0x84, 0, 0, 2, 0),
{
    serializar_header(0x84, 0, 0, 2, 0)
}

/// Build a STARTUP frame announcing the protocol version.
pub fn serializar_startup_client_server() -> (r: Vec<u8>)
    ensures
        r@ == espec_header(4, 0, 0, 1, 22) + be16(1) + be16(11) + encode_utf8("CQL_VERSION"@)
            + be16(5) + encode_utf8("3.0.0"@),
{
    proof {
        reveal_strlit("CQL_VERSION");
        reveal_strlit("3.0.0");
        broadcast use vstd::string::is_ascii_spec_bytes;

        assert(vstd::string::is_ascii("CQL_VERSION"));
        assert(vstd::string::is_ascii("3.0.0"));
        assert(vstd::string::StringSliceAdditionalSpecFns::spec_bytes("CQL_VERSION").len()
            == 11);
        assert(vstd::string::StringSliceAdditionalSpecFns::spec_bytes("3.0.0").len() == 5);
        assert(encode_utf8("CQL_VERSION"@).len() == 11);
        assert(encode_utf8("3.0.0"@).len() == 5);
    }
    let mut cuerpo: Vec<u8> = Vec::new();
    empujar_be16(&mut cuerpo, 1);
    let cql = bytes_de_cadena("CQL_VERSION");
    empujar_be16(&mut cuerpo, cql.len() as u16);
    empujar_bytes(&mut cuerpo, &cql);
    let ver = bytes_de_cadena("3.0.0");
    empujar_be16(&mut cuerpo, ver.len() as u16);
    empujar_bytes(&mut cuerpo, &ver);
    let largo = cuerpo.len();
    let mut r = serializar_header(4, 0, 0, 1, largo as i32);
    empujar_bytes(&mut r, &cuerpo);
    proof {
        assert(r@ =~= espec_header(4, 0, 0, 1, 22) + be16(1) + be16(11) + encode_utf8(
            "CQL_VERSION"@,
        ) + be16(5) + encode_utf8("3.0.0"@));
    }
    r
}

/// The cell texts read from a row body from position `i` on: each cell
/// is a length and its bytes, the null marker an empty cell; nothing
/// when a length or the bytes are unreadable.
pub open spec fn lee_elementos(b: Seq<u8>, i: int) -> Option<Seq<Seq<char>>>
    decreases b.len() - i,
{
    if i >= b.len() {
        Some(Seq::empty())
    } else if i + 4 > b.len() {
        None
    } else {
        let l = de32(b[i], b[i + 1], b[i + 2], b[i + 3]);
        if l == 0xffff_ffff {
            match lee_elementos(b, i + 4) {
                Some(resto) => Some(seq![Seq::<char>::empty()] + resto),
                None => None,
            }
        } else if l >= 0x8000_0000 || i + 4 + l > b.len() {
            None
        } else {
            let celda = b.subrange(i + 4, i + 4 + l);
            if valid_utf8(celda) {
                match lee_elementos(b, i + 4 + l) {
                    Some(resto) => Some(seq![decode_utf8(celda)] + resto),
                    None => None,
                }
            } else {
                None
            }
        }
    }
}

/// Cell texts grouped into comma-joined rows of `cols` cells each.
pub open spec fn agrupa_filas(elems: Seq<Seq<char>>, filas: int, cols: int) -> Seq<Seq<char>>
    decreases filas,
{
    if filas <= 0 || cols < 0 {
        Seq::empty()
    } else {
        agrupa_filas(elems, filas - 1, cols) + seq![
            crate::texto::unir(trozo(elems, (filas - 1) * cols, cols), seq![',']),
        ]
    }
}

/// Up to `cuantos` elements from position `desde`, clipped to the end.
pub open spec fn trozo(elems: Seq<Seq<char>>, desde: int, cuantos: int) -> Seq<Seq<char>> {
    if desde >= elems.len() || desde < 0 || cuantos <= 0 {
        Seq::empty()
    } else if desde + cuantos <= elems.len() {
        elems.subrange(desde, desde + cuantos)
    } else {
        elems.subrange(desde, elems.len() as int)
    }
}

/// Read the cells of a row body from position `i` on and group them into
/// rows.
#[verifier::loop_isolation(false)]
pub fn obtener_rows_body(i: usize, rows_count: i32, column_count: i32, body: &Vec<u8>) -> (r:
    Result<Vec<String>, String>)
    ensures
        match r {
            Ok(filas) => lee_elementos(body@, i as int) matches Some(elems)
                && filas.deep_view() == agrupa_filas(
                elems,
                rows_count as int,
                column_count as int,
            ),
            Err(_) => lee_elementos(body@, i as int) is None,
        },
{
    let mut elementos: Vec<String> = Vec::new();
    let mut pos: usize = i;
    let ghost b = body@;
    proof {
        assert(elementos.deep_view() =~~= Seq::<Seq<char>>::empty());
    }
    while pos < body.len()
        invariant
            b == body@,
            pos >= i,
            lee_elementos(b, i as int) == (match lee_elementos(b, pos as int) {
                Some(resto) => Some(elementos.deep_view() + resto),
                None => None::<Seq<Seq<char>>>,
            }),
        decreases b.len() - pos,
    {
        if body.len() - pos < 4 {
            return Err("Cantidad incorrecta de bytes en el body del mensaje.".to_string());
        }
        let l = leer_be32(body, pos);
        let ghost antes = elementos.deep_view();
        if l == 0xffff_ffff {
            elementos.push(String::new());
            proof {
                assert(elementos.deep_view() =~~= antes.push(Seq::<char>::empty()));
                if lee_elementos(b, pos + 4) is Some {
                    let resto = lee_elementos(b, pos + 4)->Some_0;
                    assert(antes + (seq![Seq::<char>::empty()] + resto) =~~= elementos.deep_view()
                        + resto);
                }
            }
            pos = pos + 4;
        } else {
            if l >= 0x8000_0000 {
                return Err(
                    "Cantidad incorrecta de bytes en el body del mensaje.".to_string(),
                );
            }
            let lu = l as usize;
            if lu > body.len() || pos + 4 > body.len() - lu {
                return Err(
                    "Cantidad incorrecta de bytes en el body del mensaje.".to_string(),
                );
            }
            let celda = subbytes(body, pos + 4, pos + 4 + lu);
            let texto = match cadena_de_bytes(celda) {
                Ok(t) => t,
                Err(_) => {
                    return Err(
                        "No se pudo convertir un elemento a una String v\u{e1}lido.".to_string(),
                    );
                },
            };
            elementos.push(texto);
            proof {
                assert(elementos.deep_view() =~~= antes.push(
                    decode_utf8(b.subrange(pos + 4, pos + 4 + lu)),
                ));
                if lee_elementos(b, pos + 4 + lu) is Some {
                    let resto = lee_elementos(b, pos + 4 + lu)->Some_0;
                    assert(antes + (seq![decode_utf8(b.subrange(pos + 4, pos + 4 + lu))] + resto)
                        =~~= elementos.deep_view() + resto);
                }
            }
            pos = pos + 4 + lu;
        }
    }
    proof {
        assert(lee_elementos(b, pos as int) == Some(Seq::<Seq<char>>::empty()));
        assert(elementos.deep_view() + Seq::<Seq<char>>::empty() =~~= elementos.deep_view());
    }
    let filas: usize = if rows_count < 0 {
        0
    } else {
        rows_count as usize
    };
    let cols: usize = if column_count < 0 {
        0
    } else {
        column_count as usize
    };
    let coma: Vec<char> = vec![','];
    proof {
        assert(coma@ =~= seq![',']);
        if rows_count < 0 || column_count < 0 {
            assert(agrupa_filas(elementos.deep_view(), rows_count as int, column_count as int)
                =~~= Seq::<Seq<char>>::empty());
        }
    }
    let mut r: Vec<String> = Vec::new();
    if rows_count < 0 || column_count < 0 {
        return Ok(r);
    }
    let mut base: usize = 0;
    let total = elementos.len();
    let mut k: usize = 0;
    while k < filas
        invariant
            0 <= k <= filas,
            filas == rows_count as int,
            cols == column_count as int,
            column_count >= 0,
            rows_count >= 0,
            total == elementos@.len(),
            coma@ == seq![','],
            base == k * (cols as int) || (base == total && k * (cols as int) >= total),
            base <= total,
            r.deep_view() == agrupa_filas(elementos.deep_view(), k as int, cols as int),
        decreases filas - k,
    {
        let mut fila: Vec<Vec<char>> = Vec::new();
        let mut x: usize = 0;
        proof {
            assert(fila.deep_view() =~~= Seq::<Seq<char>>::empty());
            if base == total && k * (cols as int) >= total {
                assert(trozo(elementos.deep_view(), k * (cols as int), 0) =~~= Seq::<
                    Seq<char>,
                >::empty());
            }
        }
        while x < cols && base + x < total
            invariant
                0 <= x <= cols,
                base + x <= total,
                base <= total,
                total == elementos@.len(),
                k < filas,
                cols == column_count as int,
                base == k * (cols as int) || (base == total && k * (cols as int) >= total),
                fila.deep_view() == trozo(elementos.deep_view(), k * (cols as int), x as int),
            decreases cols - x,
        {
            proof {
                assert(elementos.deep_view()[base + x] == elementos@[base + x]@);
            }
            let celda = chars_de_cadena(elementos[base + x].as_str());
            fila.push(celda);
            proof {
                assert(fila.deep_view() =~~= trozo(
                    elementos.deep_view(),
                    k * (cols as int),
                    x + 1 as int,
                ));
            }
            x += 1;
        }
        proof {
            assert(fila.deep_view() =~~= trozo(
                elementos.deep_view(),
                k * (cols as int),
                cols as int,
            ));
        }
        let unida = crate::texto::unir_texto(&fila, &coma);
        r.push(cadena_de_chars(&unida));
        proof {
            assert(r.deep_view() =~~= agrupa_filas(
                elementos.deep_view(),
                k + 1 as int,
                cols as int,
            ));
        }
        let ghost base_antes = base as int;
        if total - base < cols {
            base = total;
        } else {
            base = base + cols;
        }
        proof {
            assert((k + 1) * (cols as int) == k * (cols as int) + cols) by (nonlinear_arith);
            if base_antes == k * (cols as int) {
                if total - base_antes < cols {
                    assert((k + 1) * (cols as int) >= total);
                } else {
                    assert(base == (k + 1) * (cols as int));
                }
            } else {
                assert(k * (cols as int) <= (k + 1) * (cols as int)) by (nonlinear_arith)
                    requires
                        cols as int >= 0,
                ;
                if total - base_antes < cols {
                    assert(base == total && (k + 1) * (cols as int) >= total);
                } else {
                    assert(cols == 0 && base_antes == total);
                    assert(k * (cols as int) == 0) by (nonlinear_arith)
                        requires
                            cols as int == 0,
                    ;
                    assert((k + 1) * (cols as int) == 0) by (nonlinear_arith)
                        requires
                            cols as int == 0,
                    ;
                    assert(total == 0);
                    assert(base == (k + 1) * (cols as int));
                }
            }
        }
        k += 1;
    }
    Ok(r)
}

/// What decoding a client response yields: a RESULT's rows (VOID giving
/// none) with the RESULT opcode, nothing with the READY opcode, or the
/// error that rejects the frame.
pub open spec fn decodifica_respuesta(t: Seq<u8>) -> Result<(Seq<Seq<char>>, i8), ErrorTrama> {
    if t.len() < 9 {
        Err(ErrorTrama::Malformada)
    } else {
        let op = t[4] as i8;
        let blen = de32(t[5], t[6], t[7], t[8]);
        if blen >= 0x8000_0000 || t.len() < 9 + blen {
            Err(ErrorTrama::Malformada)
        } else {
            let cuerpo = t.subrange(9, 9 + blen);
            if op == 8 {
                if cuerpo.len() < 4 {
                    Err(ErrorTrama::OpcodeDesconocido)
                } else {
                    let kind = de32(cuerpo[0], cuerpo[1], cuerpo[2], cuerpo[3]);
                    if kind == 1 {
                        Ok((Seq::empty(), 8i8))
                    } else if kind == 2 {
                        if cuerpo.len() < 16 {
                            Err(ErrorTrama::Malformada)
                        } else {
                            let cols = de32(cuerpo[8], cuerpo[9], cuerpo[10], cuerpo[11]);
                            let filas = de32(cuerpo[12], cuerpo[13], cuerpo[14], cuerpo[15]);
                            if cols >= 0x8000_0000 || filas >= 0x8000_0000 {
                                Err(ErrorTrama::Malformada)
                            } else {
                                match lee_elementos(cuerpo, 16) {
                                    Some(elems) => Ok(
                                        (agrupa_filas(elems, filas as int, cols as int), 8i8),
                                    ),
                                    None => Err(ErrorTrama::Malformada),
                                }
                            }
                        }
                    } else {
                        Err(ErrorTrama::OpcodeDesconocido)
                    }
                }
            } else if op == 2 {
                Ok((Seq::empty(), 2i8))
            } else {
                Err(ErrorTrama::OpcodeDesconocido)
            }
        }
    }
}

/// Decode a client RESULT or READY frame into its rows.
pub fn deserializar_respuesta(trama: &Vec<u8>) -> (r: Result<(Vec<String>, i8), String>)
    ensures
        match r {
            Ok((filas, op)) => decodifica_respuesta(trama@) == Ok::<_, ErrorTrama>(
                (filas.deep_view(), op),
            ),
            Err(_) => decodifica_respuesta(trama@) is Err,
        },
{
    if trama.len() < 9 {
        return Err("Cantidad incorrecta de bytes en el header del mensaje.".to_string());
    }
    let op: i8 = trama[4] as i8;
    let blen = leer_be32(trama, 5);
    if blen >= 0x8000_0000 {
        return Err("Cantidad incorrecta de bytes en el body del mensaje.".to_string());
    }
    let blen_usize = blen as usize;
    if trama.len() < 9 + blen_usize {
        return Err("Cantidad incorrecta de bytes en el body del mensaje.".to_string());
    }
    let cuerpo = subbytes(trama, 9, 9 + blen_usize);
    if op == 8 {
        if cuerpo.len() < 4 {
            return Err("Tipo de respuesta no soportada.".to_string());
        }
        let kind = leer_be32(&cuerpo, 0);
        if kind == 1 {
            let vacio: Vec<String> = Vec::new();
            proof {
                assert(vacio.deep_view() =~~= Seq::<Seq<char>>::empty());
            }
            return Ok((vacio, op));
        }
        if kind == 2 {
            if cuerpo.len() < 16 {
                return Err("Cantidad incorrecta de bytes en el body del mensaje.".to_string());
            }
            let column_count = leer_be32(&cuerpo, 8);
            let rows_count = leer_be32(&cuerpo, 12);
            if column_count >= 0x8000_0000 || rows_count >= 0x8000_0000 {
                return Err("Cantidad incorrecta de bytes en el body del mensaje.".to_string());
            }
            let filas = match obtener_rows_body(
                16,
                rows_count as i32,
                column_count as i32,
                &cuerpo,
            ) {
                Ok(f) => f,
                Err(e) => {
                    return Err(e);
                },
            };
            return Ok((filas, op));
        }
        return Err("Tipo de respuesta no soportada.".to_string());
    }
    if op == 2 {
        let vacio: Vec<String> = Vec::new();
        proof {
            assert(vacio.deep_view() =~~= Seq::<Seq<char>>::empty());
        }
        return Ok((vacio, op));
    }
    Err("Tipo de respuesta no soportada.".to_string())
}

/// Cell lists concatenate on the wire piece by piece.
proof fn lema_celdas_bytes_concat(a: Seq<Seq<char>>, b: Seq<Seq<char>>)
    ensures
        celdas_bytes(a + b) == celdas_bytes(a) + celdas_bytes(b),
    decreases b.len(),
{
    if b.len() == 0 {
        assert(a + b =~~= a);
        assert(celdas_bytes(b) =~= Seq::<u8>::empty());
        assert(celdas_bytes(a) + celdas_bytes(b) =~= celdas_bytes(a));
    } else {
        lema_celdas_bytes_concat(a, b.drop_last());
        assert((a + b).drop_last() =~~= a + b.drop_last());
        assert((a + b).last() == b.last());
        assert(celdas_bytes(a + b) =~= celdas_bytes(a) + celdas_bytes(b));
    }
}

/// The cells of all rows, one row's cells after another.
pub open spec fn celdas_de_filas(filas: Seq<Seq<char>>) -> Seq<Seq<char>>
    decreases filas.len(),
{
    if filas.len() == 0 {
        Seq::empty()
    } else {
        celdas_de_filas(filas.drop_last()) + dividir(filas.last(), seq![','])
    }
}

/// The rows' wire bytes are the flattened cells' wire bytes.
proof fn lema_filas_bytes_planas(filas: Seq<Seq<char>>)
    ensures
        filas_bytes(filas) == celdas_bytes(celdas_de_filas(filas)),
    decreases filas.len(),
{
    if filas.len() == 0 {
        assert(filas_bytes(filas) =~= celdas_bytes(celdas_de_filas(filas)));
    } else {
        lema_filas_bytes_planas(filas.drop_last());
        lema_celdas_bytes_concat(
            celdas_de_filas(filas.drop_last()),
            dividir(filas.last(), seq![',']),
        );
    }
}

/// A tail made of two pieces splits into the two pieces.
proof fn lema_trozo_de_concat(b: Seq<u8>, i: int, x: Seq<u8>, y: Seq<u8>)
    requires
        0 <= i <= b.len(),
        b.subrange(i, b.len() as int) == x + y,
    ensures
        i + x.len() <= b.len(),
        b.subrange(i, i + x.len()) == x,
        b.subrange(i + x.len(), b.len() as int) == y,
{
    assert(b.subrange(i, b.len() as int).len() == x.len() + y.len());
    assert forall|j: int| 0 <= j < x.len() implies #[trigger] b.subrange(i, i + x.len())[j]
        == x[j] by {
        assert(b.subrange(i, b.len() as int)[j] == (x + y)[j]);
        assert(b.subrange(i, b.len() as int)[j] == b[i + j]);
        assert(b.subrange(i, i + x.len())[j] == b[i + j]);
    }
    assert(b.subrange(i, i + x.len()) =~= x);
    assert forall|j: int|
        0 <= j < y.len() implies #[trigger] b.subrange(i + x.len(), b.len() as int)[j]
        == y[j] by {
        assert(b.subrange(i, b.len() as int)[x.len() + j] == (x + y)[x.len() + j]);
        assert(b.subrange(i, b.len() as int)[x.len() + j] == b[i + x.len() + j]);
        assert(b.subrange(i + x.len(), b.len() as int)[j] == b[i + x.len() + j]);
    }
    assert(b.subrange(i + x.len(), b.len() as int) =~= y);
}

/// Reading a buffer whose tail holds exactly an encoded cell list
/// yields that list.
proof fn lema_lee_celdas(b: Seq<u8>, i: int, cels: Seq<Seq<char>>)
    requires
        0 <= i <= b.len(),
        b.subrange(i, b.len() as int) == celdas_bytes(cels),
        forall|k: int|
            0 <= k < cels.len() ==> encode_utf8(#[trigger] cels[k]).len() < 0x8000_0000,
    ensures
        lee_elementos(b, i) == Some(cels),
    decreases cels.len(),
{
    broadcast use vstd::utf8::encode_utf8_valid_utf8, vstd::utf8::encode_utf8_decode_utf8;

    if cels.len() == 0 {
        assert(b.subrange(i, b.len() as int).len() == 0);
        assert(i == b.len());
        assert(Some(Seq::<Seq<char>>::empty()) == Some(cels)) by {
            assert(cels =~~= Seq::<Seq<char>>::empty());
        }
    } else {
        let cabeza = cels[0];
        let cola = cels.drop_first();
        assert(cels =~~= seq![cabeza] + cola);
        lema_celdas_bytes_concat(seq![cabeza], cola);
        let hb = celdas_bytes(seq![cabeza]);
        assert(seq![cabeza].drop_last() =~~= Seq::<Seq<char>>::empty());
        assert(celdas_bytes(Seq::<Seq<char>>::empty()) =~= Seq::<u8>::empty());
        assert(hb =~= (if cabeza.len() == 0 {
            seq![255u8, 255u8, 255u8, 255u8]
        } else {
            be32(encode_utf8(cabeza).len() as u32) + encode_utf8(cabeza)
        }));
        assert(b.subrange(i, b.len() as int) == hb + celdas_bytes(cola));
        assert forall|k: int|
            0 <= k < cola.len() implies encode_utf8(#[trigger] cola[k]).len()
            < 0x8000_0000 by {
            assert(cola[k] == cels[k + 1]);
        }
        if cabeza.len() == 0 {
            lema_trozo_de_concat(b, i, seq![255u8, 255u8, 255u8, 255u8], celdas_bytes(cola));
            assert(b[i] == 255u8) by {
                assert(b.subrange(i, i + 4)[0] == b[i]);
            }
            assert(b[i + 1] == 255u8) by {
                assert(b.subrange(i, i + 4)[1] == b[i + 1]);
            }
            assert(b[i + 2] == 255u8) by {
                assert(b.subrange(i, i + 4)[2] == b[i + 2]);
            }
            assert(b[i + 3] == 255u8) by {
                assert(b.subrange(i, i + 4)[3] == b[i + 3]);
            }
            assert(de32(255u8, 255u8, 255u8, 255u8) == 0xffff_ffffu32) by (bit_vector);
            lema_lee_celdas(b, i + 4, cola);
            assert(cabeza =~= Seq::<char>::empty());
            assert(seq![Seq::<char>::empty()] + cola =~~= cels);
        } else {
            let eb = encode_utf8(cabeza);
            let l: u32 = eb.len() as u32;
            assert(hb =~= be32(l) + eb);
            assert((be32(l) + eb) + celdas_bytes(cola) =~= be32(l) + (eb + celdas_bytes(
                cola,
            )));
            lema_trozo_de_concat(b, i, be32(l), eb + celdas_bytes(cola));
            lema_trozo_de_concat(b, i + 4, eb, celdas_bytes(cola));
            lema_be32(l, 0, 0, 0, 0);
            assert(b[i] == (l >> 24) as u8) by {
                assert(b.subrange(i, i + 4)[0] == b[i]);
            }
            assert(b[i + 1] == (l >> 16) as u8) by {
                assert(b.subrange(i, i + 4)[1] == b[i + 1]);
            }
            assert(b[i + 2] == (l >> 8) as u8) by {
                assert(b.subrange(i, i + 4)[2] == b[i + 2]);
            }
            assert(b[i + 3] == l as u8) by {
                assert(b.subrange(i, i + 4)[3] == b[i + 3]);
            }
            assert(de32(b[i], b[i + 1], b[i + 2], b[i + 3]) == l);
            assert(l < 0x8000_0000);
            assert(l != 0xffff_ffffu32);
            assert(b.subrange(i + 4, i + 4 + l) == eb);
            assert(valid_utf8(eb));
            assert(decode_utf8(eb) == cabeza);
            lema_lee_celdas(b, i + 4 + l, cola);
            assert(seq![cabeza] + cola =~~= cels);
        }
    }
}

/// Under one arity, the flattened cells count rows times columns.
proof fn lema_largo_celdas(filas: Seq<Seq<char>>, c: int)
    requires
        forall|k: int| 0 <= k < filas.len() ==> dividir(#[trigger] filas[k], seq![',']).len()
            == c,
    ensures
        celdas_de_filas(filas).len() == filas.len() * c,
    decreases filas.len(),
{
    if filas.len() == 0 {
    } else {
        lema_largo_celdas(filas.drop_last(), c);
        assert(celdas_de_filas(filas).len() == (filas.len() - 1) * c + c);
        assert((filas.len() - 1) * c + c == filas.len() * c) by (nonlinear_arith);
    }
}

/// Grouping reads only the first rows-times-columns cells.
proof fn lema_agrupa_prefijo(e1: Seq<Seq<char>>, e2: Seq<Seq<char>>, n: int, c: int)
    requires
        c >= 0,
        n >= 0,
        n * c <= e1.len(),
        n * c <= e2.len(),
        forall|x: int| 0 <= x < n * c ==> e1[x] == e2[x],
    ensures
        agrupa_filas(e1, n, c) == agrupa_filas(e2, n, c),
    decreases n,
{
    if n > 0 && c >= 0 {
        assert((n - 1) * c <= n * c && (n - 1) * c + c == n * c) by (nonlinear_arith)
            requires
                n >= 1 && c >= 0,
        ;
        lema_agrupa_prefijo(e1, e2, n - 1, c);
        if c > 0 {
            assert(trozo(e1, (n - 1) * c, c) =~~= trozo(e2, (n - 1) * c, c)) by {
                if (n - 1) * c < e1.len() && (n - 1) * c + c <= e1.len() && (n - 1) * c
                    < e2.len() && (n - 1) * c + c <= e2.len() {
                    assert forall|x: int|
                        0 <= x < c implies #[trigger] e1.subrange(
                        (n - 1) * c,
                        (n - 1) * c + c,
                    )[x] == e2.subrange((n - 1) * c, (n - 1) * c + c)[x] by {
                        assert(e1[(n - 1) * c + x] == e2[(n - 1) * c + x]);
                    }
                }
            }
        }
    }
}

/// Grouping the flattened cells of uniform rows restores the rows.
proof fn lema_agrupa_invierte(filas: Seq<Seq<char>>, c: int)
    requires
        c >= 1,
        forall|k: int| 0 <= k < filas.len() ==> dividir(#[trigger] filas[k], seq![',']).len()
            == c,
    ensures
        agrupa_filas(celdas_de_filas(filas), filas.len() as int, c) == filas,
    decreases filas.len(),
{
    if filas.len() == 0 {
        assert(agrupa_filas(celdas_de_filas(filas), 0, c) =~~= filas);
    } else {
        let n = filas.len() as int;
        let previas = filas.drop_last();
        let e = celdas_de_filas(filas);
        let e0 = celdas_de_filas(previas);
        lema_largo_celdas(filas, c);
        lema_largo_celdas(previas, c);
        assert((n - 1) * c + c == n * c) by (nonlinear_arith);
        lema_agrupa_invierte(previas, c);
        assert forall|x: int| 0 <= x < (n - 1) * c implies e0[x] == e[x] by {
            assert((e0 + dividir(filas.last(), seq![',']))[x] == e0[x]);
        }
        lema_agrupa_prefijo(e0, e, n - 1, c);
        assert(trozo(e, (n - 1) * c, c) =~~= dividir(filas.last(), seq![','])) by {
            assert forall|x: int|
                0 <= x < c implies #[trigger] e.subrange((n - 1) * c, (n - 1) * c + c)[x]
                == dividir(
                filas.last(),
                seq![','],
            )[x] by {
                assert(e[(n - 1) * c + x] == (e0 + dividir(filas.last(), seq![',']))[(n - 1) * c
                    + x]);
            }
        }
        crate::texto::lema_unir_dividir(filas.last(), seq![',']);
        assert(agrupa_filas(e, n, c) =~~= agrupa_filas(e, n - 1, c).push(filas.last()));
        assert(agrupa_filas(e, n - 1, c).push(filas.last()) =~~= filas);
    }
}

/// Decoding an inter-node response frame built from rows of one arity
/// restores the rows exactly.
pub proof fn lema_ida_y_vuelta_respuesta_nodos(filas: Seq<Seq<char>>, c: int)
    requires
        1 <= c < 0x8000_0000,
        filas.len() < 0x8000_0000,
        forall|k: int| 0 <= k < filas.len() ==> dividir(#[trigger] filas[k], seq![',']).len()
            == c,
        forall|k: int|
            0 <= k < celdas_de_filas(filas).len() ==> encode_utf8(
                #[trigger] celdas_de_filas(filas)[k],
            ).len() < 0x8000_0000,
        12 + filas_bytes(filas).len() < 0x8000_0000,
    ensures
        ({
            let cuerpo = crate::serial_deserial::intra_nodos::espec_cuerpo_respuesta_nodos(
                filas,
                2,
            );
            crate::serial_deserial::intra_nodos::decodifica_respuesta_nodos(
                crate::serial_deserial::intra_nodos::espec_header_nodos(
                    0,
                    0,
                    cuerpo.len() as u32,
                ) + cuerpo,
            ) == Ok::<_, ErrorTrama>(filas)
        }),
{
    let cuerpo = crate::serial_deserial::intra_nodos::espec_cuerpo_respuesta_nodos(filas, 2);
    let t = crate::serial_deserial::intra_nodos::espec_header_nodos(0, 0, cuerpo.len() as u32)
        + cuerpo;
    let blen: u32 = cuerpo.len() as u32;
    lema_be32(blen, 0, 0, 0, 0);
    assert(t.len() == 7 + cuerpo.len());
    assert(t[3] == (blen >> 24) as u8);
    assert(t[4] == (blen >> 16) as u8);
    assert(t[5] == (blen >> 8) as u8);
    assert(t[6] == blen as u8);
    assert(de32(t[3], t[4], t[5], t[6]) == blen);
    assert(t.subrange(7, 7 + blen) =~= cuerpo);
    lema_be32(2u32, 0, 0, 0, 0);
    if filas.len() == 0 {
        assert(cuerpo =~= be32(2) + be32(0) + be32(0));
        assert(de32(cuerpo[0], cuerpo[1], cuerpo[2], cuerpo[3]) == 2u32);
        lema_be32(0u32, 0, 0, 0, 0);
        assert(de32(cuerpo[4], cuerpo[5], cuerpo[6], cuerpo[7]) == 0u32);
        assert(de32(cuerpo[8], cuerpo[9], cuerpo[10], cuerpo[11]) == 0u32);
        assert(cuerpo.len() == 12);
        assert(lee_elementos(cuerpo, 12) == Some(Seq::<Seq<char>>::empty()));
        assert(agrupa_filas(Seq::<Seq<char>>::empty(), 0, 0) =~~= filas);
    } else {
        let nf: u32 = filas.len() as u32;
        let nc: u32 = dividir(filas[0], seq![',']).len() as u32;
        assert(nc == c);
        assert(cuerpo =~= be32(2) + be32(nf) + be32(nc) + filas_bytes(filas));
        assert(de32(cuerpo[0], cuerpo[1], cuerpo[2], cuerpo[3]) == 2u32);
        lema_be32(nf, 0, 0, 0, 0);
        lema_be32(nc, 0, 0, 0, 0);
        assert(de32(cuerpo[4], cuerpo[5], cuerpo[6], cuerpo[7]) == nf);
        assert(de32(cuerpo[8], cuerpo[9], cuerpo[10], cuerpo[11]) == nc);
        lema_filas_bytes_planas(filas);
        assert(cuerpo.subrange(12, cuerpo.len() as int) =~= celdas_bytes(
            celdas_de_filas(filas),
        ));
        lema_lee_celdas(cuerpo, 12, celdas_de_filas(filas));
        lema_agrupa_invierte(filas, c);
    }
}

/// Decoding a client RESULT frame built from rows of one arity
/// restores the rows exactly, and a VOID frame decodes to no rows.
pub proof fn lema_ida_y_vuelta_respuesta(filas: Seq<Seq<char>>, c: int)
    requires
        1 <= c < 0x8000_0000,
        filas.len() < 0x8000_0000,
        forall|k: int| 0 <= k < filas.len() ==> dividir(#[trigger] filas[k], seq![',']).len()
            == c,
        forall|k: int|
            0 <= k < celdas_de_filas(filas).len() ==> encode_utf8(
                #[trigger] celdas_de_filas(filas)[k],
            ).len() < 0x8000_0000,
        16 + filas_bytes(filas).len() < 0x8000_0000,
    ensures
        ({
            let cuerpo = espec_cuerpo_result(filas, 2);
            decodifica_respuesta(
                espec_header(0x84, 0, 0, 8, cuerpo.len() as u32) + cuerpo,
            ) == Ok::<_, ErrorTrama>((filas, 8i8))
        }),
        ({
            let vacio = espec_cuerpo_result(filas, 1);
            decodifica_respuesta(
                espec_header(0x84, 0, 0, 8, vacio.len() as u32) + vacio,
            ) == Ok::<_, ErrorTrama>((Seq::<Seq<char>>::empty(), 8i8))
        }),
{
    lema_be32(2u32, 0, 0, 0, 0);
    lema_be32(1u32, 0, 0, 0, 0);
    lema_be32(4u32, 0, 0, 0, 0);
    {
        let vacio = espec_cuerpo_result(filas, 1);
        let t = espec_header(0x84, 0, 0, 8, vacio.len() as u32) + vacio;
        let blen: u32 = vacio.len() as u32;
        lema_be32(blen, 0, 0, 0, 0);
        assert(t.len() == 9 + vacio.len());
        assert(t[4] == 8u8);
        assert(de32(t[5], t[6], t[7], t[8]) == blen);
        assert(t.subrange(9, 9 + blen) =~= vacio);
        assert(vacio =~= be32(1) + seq![0u8, 0u8]);
        assert(de32(vacio[0], vacio[1], vacio[2], vacio[3]) == 1u32);
    }
    let cuerpo = espec_cuerpo_result(filas, 2);
    let t = espec_header(0x84, 0, 0, 8, cuerpo.len() as u32) + cuerpo;
    let blen: u32 = cuerpo.len() as u32;
    lema_be32(blen, 0, 0, 0, 0);
    assert(t.len() == 9 + cuerpo.len());
    assert(t[4] == 8u8);
    assert(de32(t[5], t[6], t[7], t[8]) == blen);
    assert(t.subrange(9, 9 + blen) =~= cuerpo);
    if filas.len() == 0 {
        assert(cuerpo =~= be32(2) + be32(4) + be32(0) + be32(0));
        assert(de32(cuerpo[0], cuerpo[1], cuerpo[2], cuerpo[3]) == 2u32);
        lema_be32(0u32, 0, 0, 0, 0);
        assert(de32(cuerpo[8], cuerpo[9], cuerpo[10], cuerpo[11]) == 0u32);
        assert(de32(cuerpo[12], cuerpo[13], cuerpo[14], cuerpo[15]) == 0u32);
        assert(cuerpo.len() == 16);
        assert(lee_elementos(cuerpo, 16) == Some(Seq::<Seq<char>>::empty()));
        assert(agrupa_filas(Seq::<Seq<char>>::empty(), 0, 0) =~~= filas);
    } else {
        let nf: u32 = filas.len() as u32;
        let nc: u32 = dividir(filas[0], seq![',']).len() as u32;
        assert(nc == c);
        assert(cuerpo =~= be32(2) + be32(4) + be32(nc) + be32(nf) + filas_bytes(filas));
        assert(de32(cuerpo[0], cuerpo[1], cuerpo[2], cuerpo[3]) == 2u32);
        lema_be32(nf, 0, 0, 0, 0);
        lema_be32(nc, 0, 0, 0, 0);
        assert(de32(cuerpo[8], cuerpo[9], cuerpo[10], cuerpo[11]) == nc);
        assert(de32(cuerpo[12], cuerpo[13], cuerpo[14], cuerpo[15]) == nf);
        lema_filas_bytes_planas(filas);
        assert(cuerpo.subrange(16, cuerpo.len() as int) =~= celdas_bytes(
            celdas_de_filas(filas),
        ));
        lema_lee_celdas(cuerpo, 16, celdas_de_filas(filas));
        lema_agrupa_invierte(filas, c);
    }
}

} // verus!
