//! Big-endian integer fields of the wire frames.

use vstd::prelude::*;

verus! {

/// The two big-endian bytes of a 16-bit value.
pub open spec fn be16(n: u16) -> Seq<u8> {
    seq![(n >> 8) as u8, n as u8]
}

/// The four big-endian bytes of a 32-bit value.
pub open spec fn be32(n: u32) -> Seq<u8> {
    seq![(n >> 24) as u8, (n >> 16) as u8, (n >> 8) as u8, n as u8]
}

/// The 16-bit value two big-endian bytes denote.
pub open spec fn de16(a: u8, b: u8) -> u16 {
    (((a as u16) << 8) | (b as u16)) as u16
}

/// The 32-bit value four big-endian bytes denote.
pub open spec fn de32(a: u8, b: u8, c: u8, d: u8) -> u32 {
    (((a as u32) << 24) | ((b as u32) << 16) | ((c as u32) << 8) | (d as u32)) as u32
}

/// Reading back the two bytes of a value restores it, and writing the
/// value read from two bytes restores them.
pub proof fn lema_be16(n: u16, a: u8, b: u8)
    ensures
        de16((n >> 8) as u8, n as u8) == n,
        (de16(a, b) >> 8) as u8 == a,
        de16(a, b) as u8 == b,
{
    assert(((((n >> 8) as u8) as u16) << 8 | ((n as u8) as u16)) == n) by (bit_vector);
    assert(((((a as u16) << 8 | (b as u16)) as u16) >> 8) as u8 == a) by (bit_vector);
    assert((((a as u16) << 8 | (b as u16)) as u16) as u8 == b) by (bit_vector);
}

/// Reading back the four bytes of a value restores it, and writing the
/// value read from four bytes restores them.
pub proof fn lema_be32(n: u32, a: u8, b: u8, c: u8, d: u8)
    ensures
        de32((n >> 24) as u8, (n >> 16) as u8, (n >> 8) as u8, n as u8) == n,
        (de32(a, b, c, d) >> 24) as u8 == a,
        (de32(a, b, c, d) >> 16) as u8 == b,
        (de32(a, b, c, d) >> 8) as u8 == c,
        de32(a, b, c, d) as u8 == d,
{
    assert(((((n >> 24) as u8) as u32) << 24 | (((n >> 16) as u8) as u32) << 16 | (((n
        >> 8) as u8) as u32) << 8 | ((n as u8) as u32)) == n) by (bit_vector);
    let v = ((a as u32) << 24 | (b as u32) << 16 | (c as u32) << 8 | (d as u32)) as u32;
    assert((((a as u32) << 24 | (b as u32) << 16 | (c as u32) << 8 | (d as u32)) as u32 >> 24)
        as u8 == a) by (bit_vector);
    assert((((a as u32) << 24 | (b as u32) << 16 | (c as u32) << 8 | (d as u32)) as u32 >> 16)
        as u8 == b) by (bit_vector);
    assert((((a as u32) << 24 | (b as u32) << 16 | (c as u32) << 8 | (d as u32)) as u32 >> 8)
        as u8 == c) by (bit_vector);
    assert(((((a as u32) << 24 | (b as u32) << 16 | (c as u32) << 8 | (d as u32)) as u32)
        as u8) == d) by (bit_vector);
}

/// Append the two big-endian bytes of a 16-bit value.
pub fn empujar_be16(salida: &mut Vec<u8>, n: u16)
    ensures
        final(salida)@ == old(salida)@ + be16(n),
{
    salida.push((n >> 8) as u8);
    salida.push(n as u8);
    proof {
        assert(salida@ =~= old(salida)@ + be16(n));
    }
}

/// Append the four big-endian bytes of a 32-bit value.
pub fn empujar_be32(salida: &mut Vec<u8>, n: u32)
    ensures
        final(salida)@ == old(salida)@ + be32(n),
{
    salida.push((n >> 24) as u8);
    salida.push((n >> 16) as u8);
    salida.push((n >> 8) as u8);
    salida.push(n as u8);
    proof {
        assert(salida@ =~= old(salida)@ + be32(n));
    }
}

/// Read the 16-bit big-endian value at position `i`.
pub fn leer_be16(b: &Vec<u8>, i: usize) -> (r: u16)
    requires
        i + 2 <= b@.len(),
    ensures
        r == de16(b@[i as int], b@[i + 1]),
{
    let n = b.len();
    ((b[i] as u16) << 8) | (b[i + 1] as u16)
}

/// Read the 32-bit big-endian value at position `i`.
pub fn leer_be32(b: &Vec<u8>, i: usize) -> (r: u32)
    requires
        i + 4 <= b@.len(),
    ensures
        r == de32(b@[i as int], b@[i + 1], b@[i + 2], b@[i + 3]),
{
    let n = b.len();
    ((b[i] as u32) << 24) | ((b[i + 1] as u32) << 16) | ((b[i + 2] as u32) << 8) | (b[i
        + 3] as u32)
}

/// Append every byte of `otro`.
pub fn empujar_bytes(salida: &mut Vec<u8>, otro: &Vec<u8>)
    ensures
        final(salida)@ == old(salida)@ + otro@,
{
    let mut i: usize = 0;
    while i < otro.len()
        invariant
            0 <= i <= otro@.len(),
            salida@ == old(salida)@ + otro@.subrange(0, i as int),
        decreases otro@.len() - i,
    {
        salida.push(otro[i]);
        proof {
            assert(old(salida)@ + otro@.subrange(0, i + 1 as int) =~= (old(salida)@
                + otro@.subrange(0, i as int)).push(otro@[i as int]));
        }
        i += 1;
    }
    proof {
        assert(salida@ =~= old(salida)@ + otro@);
    }
}

/// Copy of the bytes of `s` between `desde` and `hasta`.
pub fn subbytes(s: &Vec<u8>, desde: usize, hasta: usize) -> (r: Vec<u8>)
    requires
        desde <= hasta <= s@.len(),
    ensures
        r@ == s@.subrange(desde as int, hasta as int),
{
    let mut r: Vec<u8> = Vec::new();
    let mut i: usize = desde;
    while i < hasta
        invariant
            desde <= i <= hasta <= s@.len(),
            r@ == s@.subrange(desde as int, i as int),
        decreases hasta - i,
    {
        r.push(s[i]);
        proof {
            assert(s@.subrange(desde as int, i + 1 as int) =~= s@.subrange(
                desde as int,
                i as int,
            ).push(s@[i as int]));
        }
        i += 1;
    }
    r
}

} // verus!
