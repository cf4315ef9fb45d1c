//! Plaintext recovery for a set of ciphertexts that were all XOR-encrypted
//! under one reused key (a "many-time pad").
//!
//! The library combines ciphertexts pairwise so that the key cancels out,
//! looks for offsets where every pairing stays below a fixed threshold (a
//! likely space in the plaintext), and from those offsets derives key bytes
//! and plaintext bytes.
use vstd::prelude::*;

pub mod combine;
pub mod decode;
pub mod order;
pub mod recovery;

use crate::decode::{decode_ciphertexts, hex_bytes, is_hex, DecodeError};
use crate::order::{is_length_order, sort_by_length};
use crate::recovery::{key_model, plaintexts_model, recover, views, Recovery};

verus! {

/// The ciphertexts that a list of well-formed hexadecimal records stands for.
pub open spec fn decoded(records: Seq<String>) -> Seq<Seq<u8>> {
    Seq::new(records.len(), |q: int| hex_bytes(records[q]@))
}

/// The full run: decodes the hexadecimal records, orders the ciphertexts
/// longest first (equal lengths in input order) and recovers the key and the
/// plaintexts. The plaintexts come in that same order. Fails, before any
/// analysis, on the first record that is not well-formed hexadecimal.
pub fn recover_from_hex(records: &Vec<String>) -> (r: Result<Recovery, DecodeError>)
    ensures
        r is Ok <==> forall|q: int| 0 <= q < records@.len() ==> is_hex(#[trigger] records@[q]@),
        r is Err ==> {
            let e = r->Err_0.index as int;
            &&& 0 <= e < records@.len()
            &&& !is_hex(records@[e]@)
            &&& forall|q: int| 0 <= q < e ==> is_hex(#[trigger] records@[q]@)
        },
        r is Ok ==> exists|order: Seq<usize>|
            {
                let cs = Seq::new(
                    records@.len(),
                    |q: int| decoded(records@)[order[q] as int],
                );
                &&& #[trigger] is_length_order(decoded(records@), order)
                &&& r->Ok_0.key@ == key_model(cs)
                &&& views(r->Ok_0.plaintexts@) == plaintexts_model(cs)
            },
{
    match decode_ciphertexts(records) {
        Err(e) => Err(e),
        Ok(ciphers) => {
            assert(views(ciphers@) =~= decoded(records@));
            let sorted = sort_by_length(&ciphers);
            let r = recover(&sorted);
            let ghost order = choose|order: Seq<usize>|
                is_length_order(views(ciphers@), order) && views(sorted@) == Seq::new(
                    ciphers@.len(),
                    |q: int| views(ciphers@)[order[q] as int],
                );
            assert(views(sorted@) =~= Seq::new(
                records@.len(),
                |q: int| decoded(records@)[order[q] as int],
            ));
            Ok(r)
        },
    }
}

} // verus!
