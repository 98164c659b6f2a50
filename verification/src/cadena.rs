//! Boundary between `String` values and the character or byte vectors
//! the verified routines work on.

use vstd::prelude::*;
use vstd::string::StrSliceExecFns;

verus! {

/// Relies on str::chars: it yields exactly the characters of the string.
#[verifier::external_body]
pub fn chars_de_cadena(s: &str) -> (r: Vec<char>)
    ensures
        r@ == s@,
{
    s.chars().collect()
}

/// Relies on String's FromIterator over char: it collects exactly the
/// characters handed to it, in order.
#[verifier::external_body]
pub fn cadena_de_chars(v: &Vec<char>) -> (r: String)
    ensures
        r@ == v@,
{
    v.iter().collect()
}

/// Relies on String::from_utf8: it accepts exactly the valid UTF-8 byte
/// strings and decodes them; the bytes of the result are the input.
#[verifier::external_body]
pub fn cadena_de_bytes(b: Vec<u8>) -> (r: Result<String, String>)
    ensures
        match r {
            Ok(s) => vstd::utf8::valid_utf8(b@) && s@ == vstd::utf8::decode_utf8(b@),
            Err(_) => !vstd::utf8::valid_utf8(b@),
        },
{
    match String::from_utf8(b) {
        Ok(s) => Ok(s),
        Err(_) => Err("No se pudo convertir el cuerpo a texto UTF-8".to_string()),
    }
}

/// The UTF-8 bytes of a string.
pub fn bytes_de_cadena(s: &str) -> (r: Vec<u8>)
    ensures
        r@ == vstd::utf8::encode_utf8(s@),
{
    s.as_bytes_vec()
}

} // verus!
