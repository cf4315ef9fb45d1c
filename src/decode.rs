//! Turning hexadecimal ciphertext records into bytes.
use vstd::prelude::*;

use crate::recovery::views;

verus! {

/// A hexadecimal digit of either case.
pub open spec fn is_hex_digit(c: char) -> bool {
    ('0' <= c && c <= '9') || ('a' <= c && c <= 'f') || ('A' <= c && c <= 'F')
}

/// The value of a hexadecimal digit.
pub open spec fn hex_value(c: char) -> int {
    if '0' <= c && c <= '9' {
        c as u32 - '0' as u32
    } else if 'a' <= c && c <= 'f' {
        c as u32 - 'a' as u32 + 10
    } else {
        c as u32 - 'A' as u32 + 10
    }
}

/// A well-formed hexadecimal record: an even number of hexadecimal digits.
pub open spec fn is_hex(s: Seq<char>) -> bool {
    s.len() % 2 == 0 && forall|k: int| 0 <= k < s.len() ==> is_hex_digit(#[trigger] s[k])
}

/// The bytes a well-formed record stands for: each pair of digits is one byte,
/// high digit first.
pub open spec fn hex_bytes(s: Seq<char>) -> Seq<u8> {
    Seq::new(s.len() / 2, |k: int| (16 * hex_value(s[2 * k]) + hex_value(s[2 * k + 1])) as u8)
}

#[verifier::external_type_specification]
#[verifier::external_body]
pub struct ExFromHexError(hex::FromHexError);

/// Relies on hex::decode: it succeeds exactly on an even number of hexadecimal
/// digits of either case, and then gives one byte per pair, high digit first.
#[verifier::external_body]
fn decode_hex(s: &str) -> (r: Result<Vec<u8>, hex::FromHexError>)
    ensures
        r is Ok <==> is_hex(s@),
        r is Ok ==> r->Ok_0@ == hex_bytes(s@),
{
    hex::decode(s)
}

/// A record that is not well-formed hexadecimal; `index` is its position in the
/// list of records.
#[derive(Debug, Clone, Copy, PartialEq, Eq)]
pub struct DecodeError {
    pub index: usize,
}

/// Decodes every record, in order. Fails on the first record that is not
/// well-formed hexadecimal, naming its position.
pub fn decode_ciphertexts(records: &Vec<String>) -> (r: Result<Vec<Vec<u8>>, DecodeError>)
    ensures
        r is Ok <==> forall|q: int| 0 <= q < records@.len() ==> is_hex(#[trigger] records@[q]@),
        r is Ok ==> views(r->Ok_0@) == Seq::new(
            records@.len(),
            |q: int| hex_bytes(records@[q]@),
        ),
        r is Err ==> {
            let e = r->Err_0.index as int;
            &&& 0 <= e < records@.len()
            &&& !is_hex(records@[e]@)
            &&& forall|q: int| 0 <= q < e ==> is_hex(#[trigger] records@[q]@)
        },
{
    let mut out: Vec<Vec<u8>> = Vec::new();
    let mut q: usize = 0;
    while q < records.len()
        invariant
            q <= records@.len(),
            out@.len() == q,
            forall|p: int| 0 <= p < q ==> is_hex(#[trigger] records@[p]@),
            forall|p: int| 0 <= p < q ==> #[trigger] out@[p]@ == hex_bytes(records@[p]@),
        decreases records@.len() - q,
    {
        match decode_hex(records[q].as_str()) {
            Ok(bytes) => {
                out.push(bytes);
            },
            Err(_) => {
                return Err(DecodeError { index: q });
            },
        }
        q = q + 1;
    }
    assert(views(out@) =~= Seq::new(records@.len(), |q: int| hex_bytes(records@[q]@)));
    Ok(out)
}

} // verus!
