//! The combiner and the space detector: two pure functions on byte sequences.
use vstd::prelude::*;

verus! {

/// The byte value that serves both as the detector's threshold and as the
/// value XORed in to reveal key and plaintext bytes.
pub const SPACE_MARK: u8 = 65;

/// The shorter of two lengths.
pub open spec fn min_len(a: nat, b: nat) -> nat {
    if a <= b {
        a
    } else {
        b
    }
}

/// Byte-wise XOR of two sequences over their common prefix.
pub open spec fn xor_seq(a: Seq<u8>, b: Seq<u8>) -> Seq<u8> {
    Seq::new(min_len(a.len(), b.len()), |k: int| a[k] ^ b[k])
}

/// A combined byte is consistent with a pairing of two spaces when it stays
/// below the threshold.
pub open spec fn is_space_candidate(v: u8) -> bool {
    v < SPACE_MARK
}

/// The offsets of `c` that hold a space candidate, in increasing order.
pub open spec fn candidate_offsets(c: Seq<u8>) -> Seq<usize>
    decreases c.len(),
{
    if c.len() == 0 {
        seq![]
    } else {
        let rest = candidate_offsets(c.drop_last());
        if is_space_candidate(c.last()) {
            rest.push((c.len() - 1) as usize)
        } else {
            rest
        }
    }
}

/// `r` lists, in strictly increasing order, exactly the offsets of `c` that hold a
/// space candidate.
pub open spec fn lists_candidates(c: Seq<u8>, r: Seq<usize>) -> bool {
    &&& forall|q: int|
        0 <= q < r.len() ==> (#[trigger] r[q] as int) < c.len() && is_space_candidate(
            c[r[q] as int],
        )
    &&& forall|p: int, q: int| 0 <= p < q < r.len() ==> r[p] < r[q]
    &&& forall|k: int| 0 <= k < c.len() && is_space_candidate(#[trigger] c[k]) ==> r.contains(
        k as usize,
    )
}

/// XORs two ciphertexts byte by byte up to the shorter length. Under a shared
/// key the key cancels and the XOR of the two plaintexts remains.
pub fn combine_ciphers_remove_encryption_key(c1: &Vec<u8>, c2: &Vec<u8>) -> (r: Vec<u8>)
    ensures
        r@ == xor_seq(c1@, c2@),
        r@.len() == min_len(c1@.len(), c2@.len()),
{
    let common_key_length_used: usize = if c1.len() <= c2.len() {
        c1.len()
    } else {
        c2.len()
    };
    let mut result: Vec<u8> = Vec::with_capacity(common_key_length_used);
    let mut i: usize = 0;
    while i < common_key_length_used
        invariant
            common_key_length_used == min_len(c1@.len(), c2@.len()),
            i <= common_key_length_used,
            result@ == xor_seq(c1@, c2@).subrange(0, i as int),
        decreases common_key_length_used - i,
    {
        result.push(c1[i] ^ c2[i]);
        i = i + 1;
        assert(result@ =~= xor_seq(c1@, c2@).subrange(0, i as int));
    }
    assert(result@ =~= xor_seq(c1@, c2@));
    result
}

/// Lists the offsets of a combined cipher whose byte is below the threshold:
/// the offsets that may still hold a space in both plaintexts.
pub fn identify_non_whitespaces_indexes(combi_cipher: Vec<u8>) -> (r: Vec<usize>)
    ensures
        r@ == candidate_offsets(combi_cipher@),
        lists_candidates(combi_cipher@, r@),
{
    let mut r: Vec<usize> = Vec::new();
    let mut i: usize = 0;
    while i < combi_cipher.len()
        invariant
            i <= combi_cipher@.len(),
            r@ == candidate_offsets(combi_cipher@.take(i as int)),
            forall|q: int|
                0 <= q < r@.len() ==> (#[trigger] r@[q] as int) < i && is_space_candidate(
                    combi_cipher@[r@[q] as int],
                ),
            forall|p: int, q: int| 0 <= p < q < r@.len() ==> r@[p] < r@[q],
            forall|k: int|
                0 <= k < i && is_space_candidate(#[trigger] combi_cipher@[k]) ==> r@.contains(
                    k as usize,
                ),
        decreases combi_cipher@.len() - i,
    {
        let ghost before = r@;
        assert(combi_cipher@.take(i + 1).drop_last() =~= combi_cipher@.take(i as int));
        if combi_cipher[i] < SPACE_MARK {
            r.push(i);
            assert(r@[r@.len() - 1] == i);
            assert forall|k: int|
                0 <= k < i && is_space_candidate(#[trigger] combi_cipher@[k]) implies r@.contains(
                k as usize,
            ) by {
                let q = choose|q: int| 0 <= q < before.len() && before[q] == k as usize;
                assert(r@[q] == k as usize);
            }
        }
        i = i + 1;
    }
    assert(combi_cipher@.take(i as int) =~= combi_cipher@);
    r
}

/// Combining is symmetric: XOR commutes byte by byte.
pub proof fn lemma_combine_commutative(a: Seq<u8>, b: Seq<u8>)
    ensures
        xor_seq(a, b) == xor_seq(b, a),
{
    assert forall|k: int| 0 <= k < xor_seq(a, b).len() implies #[trigger] xor_seq(a, b)[k]
        == xor_seq(b, a)[k] by {
        let x = a[k];
        let y = b[k];
        assert(x ^ y == y ^ x) by (bit_vector);
    }
    assert(xor_seq(a, b) =~= xor_seq(b, a));
}

/// A sequence combined with itself is all zeros, as long as the sequence, and
/// every offset of it is a space candidate.
pub proof fn lemma_combine_self_zero(a: Seq<u8>)
    ensures
        xor_seq(a, a) == Seq::new(a.len(), |k: int| 0u8),
        forall|k: int| 0 <= k < a.len() ==> is_space_candidate(#[trigger] xor_seq(a, a)[k]),
{
    assert forall|k: int| 0 <= k < a.len() implies #[trigger] xor_seq(a, a)[k] == 0u8 by {
        let x = a[k];
        assert(x ^ x == 0u8) by (bit_vector);
    }
    assert(xor_seq(a, a) =~= Seq::new(a.len(), |k: int| 0u8));
}

} // verus!
