//! The inter-node protocol: 7-byte header frames carrying a statement
//! with its consistency and role, and row responses with the counts in
//! node order.

use crate::cadena::{bytes_de_cadena, cadena_de_bytes, cadena_de_chars, chars_de_cadena};
use crate::serial_deserial::bytes::{
    be16, be32, de16, de32, empujar_be16, empujar_be32, empujar_bytes, leer_be16, leer_be32,
    lema_be16, lema_be32, subbytes,
};
use crate::serial_deserial::cassandra::ErrorTrama;
use crate::serial_deserial::level_consistency::LevelConsistency;
use crate::texto::dividir;
use vstd::prelude::*;
use vstd::utf8::{decode_utf8, encode_utf8, valid_utf8};

verus! {

/// An inter-node header: flags, stream, body length.
pub open spec fn espec_header_nodos(flags: u8, stream_id: u16, largo: u32) -> Seq<u8> {
    seq![flags] + be16(stream_id) + be32(largo)
}

/// A whole inter-node request frame: statement bytes, consistency mark
/// and role byte under the 7-byte header.
pub open spec fn espec_trama_nodos(q: Seq<char>, cons: u16, rol: u8) -> Seq<u8> {
    let bytes = encode_utf8(q);
    espec_header_nodos(0, 0, (bytes.len() + 7) as u32) + be32(bytes.len() as u32) + bytes + be16(
        cons,
    ) + seq![rol]
}

/// What decoding an inter-node request yields: the statement, the role
/// byte and the consistency mark.
pub open spec fn decodifica_envio(t: Seq<u8>) -> Result<(Seq<char>, u8, u16), ErrorTrama> {
    if t.len() < 7 {
        Err(ErrorTrama::Malformada)
    } else {
        let blen = de32(t[3], t[4], t[5], t[6]);
        if blen >= 0x8000_0000 || t.len() < 7 + blen {
            Err(ErrorTrama::Malformada)
        } else {
            let cuerpo = t.subrange(7, 7 + blen);
            if cuerpo.len() < 4 {
                Err(ErrorTrama::Malformada)
            } else {
                let qlen = de32(cuerpo[0], cuerpo[1], cuerpo[2], cuerpo[3]);
                if qlen >= 0x8000_0000 || 4 + qlen + 3 > cuerpo.len() {
                    Err(ErrorTrama::Malformada)
                } else {
                    let qb = cuerpo.subrange(4, 4 + qlen);
                    if valid_utf8(qb) {
                        Ok(
                            (
                                decode_utf8(qb),
                                cuerpo[4 + qlen + 2],
                                de16(cuerpo[4 + qlen], cuerpo[4 + qlen + 1]),
                            ),
                        )
                    } else {
                        Err(ErrorTrama::Utf8)
                    }
                }
            }
        }
    }
}

/// Build an inter-node header.
pub fn serializar_header_nodos(flags: u8, stream_id: u16, lenght: i32) -> (r: Vec<u8>)
    ensures
        r@ == espec_header_nodos(flags, stream_id, lenght as u32),
{
    let mut header: Vec<u8> = Vec::new();
    header.push(flags);
    empujar_be16(&mut header, stream_id);
    empujar_be32(&mut header, lenght as u32);
    proof {
        assert(header@ =~= espec_header_nodos(flags, stream_id, lenght as u32));
    }
    header
}

/// Build an inter-node request frame.
pub fn serializar_envio_nodos(
    consulta_cql: &str,
    consistencia: LevelConsistency,
    responsabilidad: u8,
) -> (r: Vec<u8>)
    requires
        encode_utf8(consulta_cql@).len() + 7 < 0x8000_0000,
    ensures
        ({
            let cons: u16 = if consistencia == LevelConsistency::Strong {
                4
            } else {
                1
            };
            r@ == espec_trama_nodos(consulta_cql@, cons, responsabilidad)
        }),
{
    let cuerpo_bytes = bytes_de_cadena(consulta_cql);
    let valor = consistencia.valor();
    let largo_cuerpo = cuerpo_bytes.len() + 7;
    let mut r = serializar_header_nodos(0, 0, largo_cuerpo as i32);
    empujar_be32(&mut r, cuerpo_bytes.len() as u32);
    empujar_bytes(&mut r, &cuerpo_bytes);
    empujar_be16(&mut r, valor);
    r.push(responsabilidad);
    proof {
        let cons: u16 = if consistencia == LevelConsistency::Strong {
            4
        } else {
            1
        };
        assert(r@ =~= espec_trama_nodos(consulta_cql@, cons, responsabilidad));
    }
    r
}

/// Decode an inter-node request frame.
pub fn deserializar_envio_nodos(trama: &Vec<u8>) -> (r: Result<(String, u8, u16), String>)
    ensures
        match r {
            Ok((s, rol, cons)) => decodifica_envio(trama@) == Ok::<_, ErrorTrama>(
                (s@, rol, cons),
            ),
            Err(_) => decodifica_envio(trama@) is Err,
        },
{
    if trama.len() < 7 {
        return Err("Cantidad incorrecta de bytes en el header del mensaje.".to_string());
    }
    let blen = leer_be32(trama, 3);
    if blen >= 0x8000_0000 {
        return Err("Cantidad incorrecta de bytes en el body del mensaje.".to_string());
    }
    let blen_usize = blen as usize;
    if trama.len() < 7 + blen_usize {
        return Err("Cantidad incorrecta de bytes en el body del mensaje.".to_string());
    }
    let cuerpo = subbytes(trama, 7, 7 + blen_usize);
    if cuerpo.len() < 4 {
        return Err("Cantidad incorrecta de bytes en el body del mensaje.".to_string());
    }
    let qlen = leer_be32(&cuerpo, 0);
    if qlen >= 0x8000_0000 {
        return Err("Cantidad incorrecta de bytes en el body del mensaje.".to_string());
    }
    let qlen_usize = qlen as usize;
    if qlen_usize > cuerpo.len() || cuerpo.len() - qlen_usize < 7 {
        return Err("Cantidad incorrecta de bytes en el body del mensaje.".to_string());
    }
    let qb = subbytes(&cuerpo, 4, 4 + qlen_usize);
    let cons = leer_be16(&cuerpo, 4 + qlen_usize);
    let rol = cuerpo[4 + qlen_usize + 2];
    match cadena_de_bytes(qb) {
        Ok(s) => Ok((s, rol, cons)),
        Err(e) => Err(e),
    }
}

/// Decoding an inter-node frame built from a statement restores the
/// statement, its role and its consistency mark exactly.
pub proof fn lema_ida_y_vuelta_nodos(q: Seq<char>, cons: u16, rol: u8)
    requires
        encode_utf8(q).len() + 7 < 0x8000_0000,
    ensures
        decodifica_envio(espec_trama_nodos(q, cons, rol)) == Ok::<_, ErrorTrama>((q, rol, cons)),
{
    broadcast use vstd::utf8::encode_utf8_valid_utf8, vstd::utf8::encode_utf8_decode_utf8;

    let bytes = encode_utf8(q);
    let t = espec_trama_nodos(q, cons, rol);
    let blen: u32 = (bytes.len() + 7) as u32;
    assert(t.len() == 7 + 4 + bytes.len() + 2 + 1);
    lema_be32(blen, 0, 0, 0, 0);
    assert(t[3] == (blen >> 24) as u8);
    assert(t[4] == (blen >> 16) as u8);
    assert(t[5] == (blen >> 8) as u8);
    assert(t[6] == blen as u8);
    assert(de32(t[3], t[4], t[5], t[6]) == blen);
    let cuerpo = t.subrange(7, 7 + blen);
    assert(cuerpo.len() == 4 + bytes.len() + 3);
    let qlen: u32 = bytes.len() as u32;
    lema_be32(qlen, 0, 0, 0, 0);
    assert(cuerpo[0] == (qlen >> 24) as u8);
    assert(cuerpo[1] == (qlen >> 16) as u8);
    assert(cuerpo[2] == (qlen >> 8) as u8);
    assert(cuerpo[3] == qlen as u8);
    assert(de32(cuerpo[0], cuerpo[1], cuerpo[2], cuerpo[3]) == qlen);
    let qb = cuerpo.subrange(4, 4 + qlen);
    assert(qb =~= bytes);
    assert(valid_utf8(bytes));
    assert(decode_utf8(bytes) == q);
    lema_be16(cons, 0, 0);
    assert(cuerpo[4 + qlen] == (cons >> 8) as u8);
    assert(cuerpo[4 + qlen + 1] == cons as u8);
    assert(de16(cuerpo[4 + qlen], cuerpo[4 + qlen + 1]) == cons);
    assert(cuerpo[4 + qlen + 2] == rol);
}

/// An inter-node RESULT body: like the client's, with the row count
/// before the column count and no metadata flag.
pub open spec fn espec_cuerpo_respuesta_nodos(filas: Seq<Seq<char>>, kind: i32) -> Seq<u8> {
    be32(kind as u32) + (if kind == 2 {
        (if filas.len() == 0 {
            be32(0) + be32(0)
        } else {
            be32(filas.len() as u32) + be32(dividir(filas[0], seq![',']).len() as u32)
                + crate::serial_deserial::cassandra::filas_bytes(filas)
        })
    } else {
        seq![0u8, 0u8]
    })
}

/// Build an inter-node response frame around rows.
#[verifier::loop_isolation(false)]
pub fn serializar_respuesta_nodos(respuesta: &Vec<String>, kind: i32) -> (r: Vec<u8>)
    requires
        forall|f: int, k: int|
            0 <= f < respuesta.deep_view().len() && 0 <= k < dividir(
                respuesta.deep_view()[f],
                seq![','],
            ).len() ==> encode_utf8(
                #[trigger] dividir(#[trigger] respuesta.deep_view()[f], seq![','])[k],
            ).len() < 0x8000_0000,
        respuesta@.len() < 0x8000_0000,
        espec_cuerpo_respuesta_nodos(respuesta.deep_view(), kind).len() < 0x8000_0000,
        respuesta.deep_view().len() > 0 ==> dividir(respuesta.deep_view()[0], seq![',']).len()
            < 0x8000_0000,
    ensures
        r@ == espec_header_nodos(
            0,
            0,
            espec_cuerpo_respuesta_nodos(respuesta.deep_view(), kind).len() as u32,
        ) + espec_cuerpo_respuesta_nodos(respuesta.deep_view(), kind),
{
    let mut cuerpo: Vec<u8> = Vec::new();
    empujar_be32(&mut cuerpo, kind as u32);
    if kind == 2 {
        if respuesta.len() == 0 {
            empujar_be32(&mut cuerpo, 0);
            empujar_be32(&mut cuerpo, 0);
        } else {
            proof {
                assert(respuesta.deep_view()[0] == respuesta@[0]@);
            }
            let primera = chars_de_cadena(respuesta[0].as_str());
            let coma: Vec<char> = vec![','];
            proof {
                assert(coma@ =~= seq![',']);
            }
            let cels0 = crate::texto::dividir_texto(&primera, &coma);
            proof {
                crate::texto::lema_dividir_no_vacio(respuesta.deep_view()[0], seq![',']);
            }
            empujar_be32(&mut cuerpo, respuesta.len() as u32);
            empujar_be32(&mut cuerpo, cels0.len() as u32);
            let mut f: usize = 0;
            let ghost base = cuerpo@;
            while f < respuesta.len()
                invariant
                    0 <= f <= respuesta@.len(),
                    cuerpo@ == base + crate::serial_deserial::cassandra::filas_bytes(
                        respuesta.deep_view().subrange(0, f as int),
                    ),
                    forall|ff: int, k: int|
                        0 <= ff < respuesta.deep_view().len() && 0 <= k < dividir(
                            respuesta.deep_view()[ff],
                            seq![','],
                        ).len() ==> encode_utf8(
                            #[trigger] dividir(
                                #[trigger] respuesta.deep_view()[ff],
                                seq![','],
                            )[k],
                        ).len() < 0x8000_0000,
                decreases respuesta@.len() - f,
            {
                let ghost pref = respuesta.deep_view().subrange(0, f as int);
                proof {
                    assert(respuesta.deep_view().subrange(0, f + 1 as int).drop_last()
                        =~~= pref);
                    assert(respuesta.deep_view().subrange(0, f + 1 as int).last()
                        == respuesta.deep_view()[f as int]);
                    assert(respuesta.deep_view()[f as int] == respuesta@[f as int]@);
                }
                crate::serial_deserial::cassandra::empujar_celdas(
                    &mut cuerpo,
                    respuesta[f].as_str(),
                );
                proof {
                    assert(cuerpo@ =~= base + crate::serial_deserial::cassandra::filas_bytes(
                        respuesta.deep_view().subrange(0, f + 1 as int),
                    ));
                }
                f += 1;
            }
            proof {
                assert(respuesta.deep_view().subrange(0, respuesta.deep_view().len() as int)
                    =~~= respuesta.deep_view());
            }
        }
    } else {
        cuerpo.push(0);
        cuerpo.push(0);
    }
    proof {
        assert(cuerpo@ =~= espec_cuerpo_respuesta_nodos(respuesta.deep_view(), kind));
        assert(cuerpo@.len() < 0x8000_0000);
    }
    let largo = cuerpo.len();
    let mut r = serializar_header_nodos(0, 0, largo as i32);
    empujar_bytes(&mut r, &cuerpo);
    proof {
        assert(r@ =~= espec_header_nodos(
            0,
            0,
            espec_cuerpo_respuesta_nodos(respuesta.deep_view(), kind).len() as u32,
        ) + espec_cuerpo_respuesta_nodos(respuesta.deep_view(), kind));
    }
    r
}

/// What decoding an inter-node response yields: a ROWS body's rows with
/// the row count read before the column count, nothing for any other
/// kind, or the error that rejects the frame.
pub open spec fn decodifica_respuesta_nodos(t: Seq<u8>) -> Result<Seq<Seq<char>>, ErrorTrama> {
    if t.len() < 7 {
        Err(ErrorTrama::Malformada)
    } else {
        let blen = de32(t[3], t[4], t[5], t[6]);
        if blen >= 0x8000_0000 || t.len() < 7 + blen {
            Err(ErrorTrama::Malformada)
        } else {
            let cuerpo = t.subrange(7, 7 + blen);
            if cuerpo.len() < 4 {
                Err(ErrorTrama::Malformada)
            } else {
                let kind = de32(cuerpo[0], cuerpo[1], cuerpo[2], cuerpo[3]);
                if kind == 2 {
                    if cuerpo.len() < 12 {
                        Err(ErrorTrama::Malformada)
                    } else {
                        let filas = de32(cuerpo[4], cuerpo[5], cuerpo[6], cuerpo[7]);
                        let cols = de32(cuerpo[8], cuerpo[9], cuerpo[10], cuerpo[11]);
                        if cols >= 0x8000_0000 || filas >= 0x8000_0000 {
                            Err(ErrorTrama::Malformada)
                        } else {
                            match crate::serial_deserial::cassandra::lee_elementos(cuerpo, 12) {
                                Some(elems) => Ok(
                                    crate::serial_deserial::cassandra::agrupa_filas(
                                        elems,
                                        filas as int,
                                        cols as int,
                                    ),
                                ),
                                None => Err(ErrorTrama::Malformada),
                            }
                        }
                    }
                } else {
                    Ok(Seq::empty())
                }
            }
        }
    }
}

/// Decode an inter-node response frame into its rows.
pub fn deserializar_respuesta_nodos(trama: &Vec<u8>) -> (r: Result<Vec<String>, String>)
    ensures
        match r {
            Ok(filas) => decodifica_respuesta_nodos(trama@) == Ok::<_, ErrorTrama>(
                filas.deep_view(),
            ),
            Err(_) => decodifica_respuesta_nodos(trama@) is Err,
        },
{
    if trama.len() < 7 {
        return Err("Cantidad incorrecta de bytes en el header del mensaje.".to_string());
    }
    let blen = leer_be32(trama, 3);
    if blen >= 0x8000_0000 {
        return Err("Cantidad incorrecta de bytes en el body del mensaje.".to_string());
    }
    let blen_usize = blen as usize;
    if trama.len() < 7 + blen_usize {
        return Err("Cantidad incorrecta de bytes en el body del mensaje.".to_string());
    }
    let cuerpo = subbytes(trama, 7, 7 + blen_usize);
    if cuerpo.len() < 4 {
        return Err("Cantidad incorrecta de bytes en el body del mensaje.".to_string());
    }
    let kind = leer_be32(&cuerpo, 0);
    if kind == 1 {
        let vacio: Vec<String> = Vec::new();
        proof {
            assert(vacio.deep_view() =~~= Seq::<Seq<char>>::empty());
        }
        return Ok(vacio);
    }
    if kind == 2 {
        if cuerpo.len() < 12 {
            return Err("Cantidad incorrecta de bytes en el body del mensaje.".to_string());
        }
        let rows_count = leer_be32(&cuerpo, 4);
        let column_count = leer_be32(&cuerpo, 8);
        if column_count >= 0x8000_0000 || rows_count >= 0x8000_0000 {
            return Err("Cantidad incorrecta de bytes en el body del mensaje.".to_string());
        }
        return crate::serial_deserial::cassandra::obtener_rows_body(
            12,
            rows_count as i32,
            column_count as i32,
            &cuerpo,
        );
    }
    let vacio: Vec<String> = Vec::new();
    proof {
        assert(vacio.deep_view() =~~= Seq::<Seq<char>>::empty());
    }
    Ok(vacio)
}

} // verus!
