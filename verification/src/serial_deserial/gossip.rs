//! The gossip protocol: 5-byte header frames carrying SYN, ACK and ACK2
//! bodies of whitespace-separated digest entries.

use crate::cadena::{bytes_de_cadena, cadena_de_bytes, cadena_de_chars, chars_de_cadena};
use crate::serial_deserial::bytes::{be32, de32, empujar_be32, empujar_bytes, leer_be32, lema_be32, subbytes};
use crate::serial_deserial::cassandra::ErrorTrama;
use crate::serial_deserial::type_message::TypeGossip;
use crate::texto::{dividir, recortar, recortar_texto};
use vstd::prelude::*;
use vstd::utf8::{decode_utf8, encode_utf8, valid_utf8};

verus! {

/// A SYN body: the sender's address and its digest, both trimmed, each
/// written as its own byte length and bytes.
pub open spec fn espec_cuerpo_syn(mensaje: Seq<char>, ip: Seq<char>) -> Seq<u8> {
    let ib = encode_utf8(recortar(ip));
    let mb = encode_utf8(recortar(mensaje));
    be32(ib.len() as u32) + ib + be32(mb.len() as u32) + mb
}

/// A whole gossip frame: the kind byte, the body length and the body.
/// SYN carries address and digest; ACK and ACK2 carry the message text,
/// trimmed.
pub open spec fn espec_trama_gossip(mensaje: Seq<char>, tipo: TypeGossip, ip: Seq<char>) -> Seq<
    u8,
> {
    let cuerpo = match tipo {
        TypeGossip::Syn => espec_cuerpo_syn(mensaje, ip),
        TypeGossip::Ack => encode_utf8(mensaje),
        TypeGossip::Ack2 => encode_utf8(recortar(mensaje)),
    };
    seq![match tipo {
        TypeGossip::Syn => 0u8,
        TypeGossip::Ack => 1u8,
        TypeGossip::Ack2 => 2u8,
    }] + be32(cuerpo.len() as u32) + cuerpo
}

/// What decoding a gossip frame yields: the message, its kind and, for
/// SYN, the sender's address.
pub open spec fn decodifica_gossip(t: Seq<u8>) -> Result<
    (Seq<char>, TypeGossip, Seq<char>),
    ErrorTrama,
> {
    if t.len() < 5 {
        Err(ErrorTrama::Malformada)
    } else {
        let tipo = if t[0] == 0 {
            TypeGossip::Syn
        } else if t[0] == 1 {
            TypeGossip::Ack
        } else {
            TypeGossip::Ack2
        };
        let blen = de32(t[1], t[2], t[3], t[4]);
        if blen >= 0x8000_0000 || t.len() < 5 + blen {
            Err(ErrorTrama::Malformada)
        } else {
            let cuerpo = t.subrange(5, 5 + blen);
            if tipo == TypeGossip::Syn {
                if cuerpo.len() < 4 {
                    Err(ErrorTrama::Malformada)
                } else {
                    let il = de32(cuerpo[0], cuerpo[1], cuerpo[2], cuerpo[3]);
                    if il >= 0x8000_0000 || 4 + il + 4 > cuerpo.len() {
                        Err(ErrorTrama::Malformada)
                    } else {
                        let ib = cuerpo.subrange(4, 4 + il);
                        let mb = cuerpo.subrange(4 + il + 4, cuerpo.len() as int);
                        if valid_utf8(ib) && valid_utf8(mb) {
                            Ok((decode_utf8(mb), TypeGossip::Syn, decode_utf8(ib)))
                        } else {
                            Err(ErrorTrama::Utf8)
                        }
                    }
                }
            } else {
                if valid_utf8(cuerpo) {
                    Ok((decode_utf8(cuerpo), tipo, Seq::empty()))
                } else {
                    Err(ErrorTrama::Utf8)
                }
            }
        }
    }
}

/// Build an ACK body: the stale line and the fresh line of the message,
/// each trimmed, re-joined with one newline; without a second line the
/// second side is empty.
pub fn ordenar_ack(mensaje: &str) -> (r: String)
    ensures
        ({
            let lados = dividir(mensaje@, seq!['\n']);
            r@ == recortar(lados[0]) + seq!['\n'] + (if lados.len() > 1 {
                recortar(lados[1])
            } else {
                Seq::<char>::empty()
            })
        }),
{
    let m = chars_de_cadena(mensaje);
    let salto: Vec<char> = vec!['\n'];
    proof {
        assert(salto@ =~= seq!['\n']);
    }
    let lados = crate::texto::dividir_texto(&m, &salto);
    proof {
        crate::texto::lema_dividir_no_vacio(m@, seq!['\n']);
        assert(lados@.len() == lados.deep_view().len());
    }
    let primera = recortar_texto(&lados[0]);
    let segunda: Vec<char> = if lados.len() > 1 {
        recortar_texto(&lados[1])
    } else {
        Vec::new()
    };
    proof {
        assert(lados.deep_view()[0] == lados@[0]@);
        if lados@.len() > 1 {
            assert(lados.deep_view()[1] == lados@[1]@);
        }
    }
    let ghost primera_vista = primera@;
    let ghost segunda_vista = segunda@;
    let mut cuerpo = primera;
    cuerpo.push('\n');
    let mut seg = segunda;
    cuerpo.append(&mut seg);
    proof {
        assert(cuerpo@ =~= primera_vista + seq!['\n'] + segunda_vista);
    }
    cadena_de_chars(&cuerpo)
}

/// Build a gossip frame.
pub fn serializar_gossip(mensaje: &str, tipo: TypeGossip, ip: &str) -> (r: Vec<u8>)
    requires
        encode_utf8(mensaje@).len() + encode_utf8(ip@).len() + 8 < 0x8000_0000,
    ensures
        r@ == espec_trama_gossip(mensaje@, tipo, ip@),
{
    let m = chars_de_cadena(mensaje);
    match tipo {
        TypeGossip::Syn => {
            let i_chars = chars_de_cadena(ip);
            let ip_rec = recortar_texto(&i_chars);
            let m_rec = recortar_texto(&m);
            let ib = bytes_de_cadena(cadena_de_chars(&ip_rec).as_str());
            let mb = bytes_de_cadena(cadena_de_chars(&m_rec).as_str());
            proof {
                lema_recorte_bytes(ip@);
                lema_recorte_bytes(mensaje@);
            }
            let mut cuerpo: Vec<u8> = Vec::new();
            empujar_be32(&mut cuerpo, ib.len() as u32);
            empujar_bytes(&mut cuerpo, &ib);
            empujar_be32(&mut cuerpo, mb.len() as u32);
            empujar_bytes(&mut cuerpo, &mb);
            let largo = cuerpo.len();
            let mut r: Vec<u8> = Vec::new();
            r.push(0);
            empujar_be32(&mut r, largo as u32);
            empujar_bytes(&mut r, &cuerpo);
            proof {
                assert(r@ =~= espec_trama_gossip(mensaje@, tipo, ip@));
            }
            r
        },
        TypeGossip::Ack => {
            let mb = bytes_de_cadena(mensaje);
            let largo = mb.len();
            let mut r: Vec<u8> = Vec::new();
            r.push(1);
            empujar_be32(&mut r, largo as u32);
            empujar_bytes(&mut r, &mb);
            proof {
                assert(r@ =~= espec_trama_gossip(mensaje@, tipo, ip@));
            }
            r
        },
        TypeGossip::Ack2 => {
            let m_rec = recortar_texto(&m);
            let mb = bytes_de_cadena(cadena_de_chars(&m_rec).as_str());
            proof {
                lema_recorte_bytes(mensaje@);
            }
            let largo = mb.len();
            let mut r: Vec<u8> = Vec::new();
            r.push(2);
            empujar_be32(&mut r, largo as u32);
            empujar_bytes(&mut r, &mb);
            proof {
                assert(r@ =~= espec_trama_gossip(mensaje@, tipo, ip@));
            }
            r
        },
    }
}

/// Encoding a concatenation encodes the pieces one after the other.
proof fn lema_encode_concat(x: Seq<char>, y: Seq<char>)
    ensures
        encode_utf8(x + y) == encode_utf8(x) + encode_utf8(y),
    decreases x.len(),
{
    if x.len() == 0 {
        assert(x + y =~= y);
        assert(encode_utf8(x) =~= Seq::<u8>::empty());
        assert(encode_utf8(x) + encode_utf8(y) =~= encode_utf8(y));
    } else {
        lema_encode_concat(x.drop_first(), y);
        assert((x + y).drop_first() =~= x.drop_first() + y);
        assert((x + y)[0] == x[0]);
        assert(vstd::utf8::encode_scalar(x[0] as u32) + (encode_utf8(x.drop_first())
            + encode_utf8(y)) =~= (vstd::utf8::encode_scalar(x[0] as u32) + encode_utf8(
            x.drop_first(),
        )) + encode_utf8(y));
    }
}

/// Dropping leading blanks never lengthens the encoding.
proof fn lema_recorte_inicio_bytes(s: Seq<char>)
    ensures
        encode_utf8(crate::texto::sin_blancos_inicio(s)).len() <= encode_utf8(s).len(),
    decreases s.len(),
{
    if s.len() > 0 && crate::texto::es_blanco(s[0]) {
        lema_recorte_inicio_bytes(s.drop_first());
    }
}

/// Dropping trailing blanks never lengthens the encoding.
proof fn lema_recorte_fin_bytes(s: Seq<char>)
    ensures
        encode_utf8(crate::texto::sin_blancos_fin(s)).len() <= encode_utf8(s).len(),
    decreases s.len(),
{
    if s.len() > 0 && crate::texto::es_blanco(s.last()) {
        lema_recorte_fin_bytes(s.drop_last());
        lema_encode_concat(s.drop_last(), seq![s.last()]);
        assert(s =~= s.drop_last() + seq![s.last()]);
    }
}

/// Trimming never lengthens a text's encoding.
pub proof fn lema_recorte_bytes(s: Seq<char>)
    ensures
        encode_utf8(recortar(s)).len() <= encode_utf8(s).len(),
{
    lema_recorte_inicio_bytes(s);
    lema_recorte_fin_bytes(crate::texto::sin_blancos_inicio(s));
}

/// Decode a gossip frame.
pub fn deserializar_gossip(trama: &Vec<u8>) -> (r: Result<(String, TypeGossip, String), String>)
    ensures
        match r {
            Ok((m, tipo, ip)) => decodifica_gossip(trama@) == Ok::<_, ErrorTrama>(
                (m@, tipo, ip@),
            ),
            Err(_) => decodifica_gossip(trama@) is Err,
        },
{
    if trama.len() < 5 {
        return Err("Cantidad incorrecta de bytes en el header del mensaje.".to_string());
    }
    let tipo = TypeGossip::create(trama[0]);
    let blen = leer_be32(trama, 1);
    if blen >= 0x8000_0000 {
        return Err("Cantidad incorrecta de bytes en el body del mensaje.".to_string());
    }
    let blen_usize = blen as usize;
    if trama.len() < 5 + blen_usize {
        return Err("Cantidad incorrecta de bytes en el body del mensaje.".to_string());
    }
    let cuerpo = subbytes(trama, 5, 5 + blen_usize);
    match tipo {
        TypeGossip::Syn => {
            if cuerpo.len() < 4 {
                return Err("Cantidad incorrecta de bytes en el body del mensaje.".to_string());
            }
            let il = leer_be32(&cuerpo, 0);
            if il >= 0x8000_0000 {
                return Err("Cantidad incorrecta de bytes en el body del mensaje.".to_string());
            }
            let il_usize = il as usize;
            if il_usize > cuerpo.len() || cuerpo.len() - il_usize < 8 {
                return Err("Cantidad incorrecta de bytes en el body del mensaje.".to_string());
            }
            let ib = subbytes(&cuerpo, 4, 4 + il_usize);
            let mb = subbytes(&cuerpo, 4 + il_usize + 4, cuerpo.len());
            let ip = match cadena_de_bytes(ib) {
                Ok(s) => s,
                Err(e) => {
                    return Err(e);
                },
            };
            let mensaje = match cadena_de_bytes(mb) {
                Ok(s) => s,
                Err(e) => {
                    return Err(e);
                },
            };
            Ok((mensaje, tipo, ip))
        },
        _ => {
            let mensaje = match cadena_de_bytes(cuerpo) {
                Ok(s) => s,
                Err(e) => {
                    return Err(e);
                },
            };
            Ok((mensaje, tipo, String::new()))
        },
    }
}

/// Decoding an ACK frame restores its message exactly.
pub proof fn lema_ida_y_vuelta_ack(mensaje: Seq<char>, ip: Seq<char>)
    requires
        encode_utf8(mensaje).len() + 8 < 0x8000_0000,
    ensures
        decodifica_gossip(espec_trama_gossip(mensaje, TypeGossip::Ack, ip)) == Ok::<
            _,
            ErrorTrama,
        >((mensaje, TypeGossip::Ack, Seq::<char>::empty())),
{
    broadcast use vstd::utf8::encode_utf8_valid_utf8, vstd::utf8::encode_utf8_decode_utf8;

    let cuerpo = encode_utf8(mensaje);
    let t = espec_trama_gossip(mensaje, TypeGossip::Ack, ip);
    let blen: u32 = cuerpo.len() as u32;
    lema_be32(blen, 0, 0, 0, 0);
    assert(t[0] == 1u8);
    assert(t[1] == (blen >> 24) as u8);
    assert(t[2] == (blen >> 16) as u8);
    assert(t[3] == (blen >> 8) as u8);
    assert(t[4] == blen as u8);
    assert(de32(t[1], t[2], t[3], t[4]) == blen);
    assert(t.subrange(5, 5 + blen) =~= cuerpo);
}

/// Decoding an ACK2 frame built from an already trimmed message
/// restores the message.
pub proof fn lema_ida_y_vuelta_ack2(mensaje: Seq<char>)
    requires
        encode_utf8(mensaje).len() + 8 < 0x8000_0000,
        recortar(mensaje) == mensaje,
    ensures
        decodifica_gossip(espec_trama_gossip(mensaje, TypeGossip::Ack2, Seq::empty()))
            == Ok::<_, ErrorTrama>((mensaje, TypeGossip::Ack2, Seq::<char>::empty())),
{
    broadcast use vstd::utf8::encode_utf8_valid_utf8, vstd::utf8::encode_utf8_decode_utf8;

    let cuerpo = encode_utf8(mensaje);
    let t = espec_trama_gossip(mensaje, TypeGossip::Ack2, Seq::empty());
    let blen: u32 = cuerpo.len() as u32;
    lema_be32(blen, 0, 0, 0, 0);
    assert(t[0] == 2u8);
    assert(t[1] == (blen >> 24) as u8);
    assert(t[2] == (blen >> 16) as u8);
    assert(t[3] == (blen >> 8) as u8);
    assert(t[4] == blen as u8);
    assert(de32(t[1], t[2], t[3], t[4]) == blen);
    assert(t.subrange(5, 5 + blen) =~= cuerpo);
}

/// Decoding a SYN frame built from an already trimmed digest and
/// address restores both.
pub proof fn lema_ida_y_vuelta_syn(mensaje: Seq<char>, ip: Seq<char>)
    requires
        recortar(mensaje) == mensaje,
        recortar(ip) == ip,
        encode_utf8(mensaje).len() + encode_utf8(ip).len() + 13 < 0x8000_0000,
    ensures
        decodifica_gossip(espec_trama_gossip(mensaje, TypeGossip::Syn, ip)) == Ok::<
            _,
            ErrorTrama,
        >((mensaje, TypeGossip::Syn, ip)),
{
    broadcast use vstd::utf8::encode_utf8_valid_utf8, vstd::utf8::encode_utf8_decode_utf8;

    let ib = encode_utf8(ip);
    let mb = encode_utf8(mensaje);
    let cuerpo = espec_cuerpo_syn(mensaje, ip);
    assert(cuerpo =~= be32(ib.len() as u32) + ib + be32(mb.len() as u32) + mb);
    let t = espec_trama_gossip(mensaje, TypeGossip::Syn, ip);
    let blen: u32 = cuerpo.len() as u32;
    lema_be32(blen, 0, 0, 0, 0);
    assert(t[0] == 0u8);
    assert(t[1] == (blen >> 24) as u8);
    assert(t[2] == (blen >> 16) as u8);
    assert(t[3] == (blen >> 8) as u8);
    assert(t[4] == blen as u8);
    assert(de32(t[1], t[2], t[3], t[4]) == blen);
    assert(t.subrange(5, 5 + blen) =~= cuerpo);
    let il: u32 = ib.len() as u32;
    lema_be32(il, 0, 0, 0, 0);
    assert(cuerpo[0] == (il >> 24) as u8);
    assert(cuerpo[1] == (il >> 16) as u8);
    assert(cuerpo[2] == (il >> 8) as u8);
    assert(cuerpo[3] == il as u8);
    assert(de32(cuerpo[0], cuerpo[1], cuerpo[2], cuerpo[3]) == il);
    assert(cuerpo.subrange(4, 4 + il) =~= ib);
    assert(cuerpo.subrange(4 + il + 4, cuerpo.len() as int) =~= mb);
    assert(valid_utf8(ib));
    assert(valid_utf8(mb));
    assert(decode_utf8(ib) == ip);
    assert(decode_utf8(mb) == mensaje);
}

} // verus!
