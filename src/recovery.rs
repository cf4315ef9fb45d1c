//! The recovery orchestrator: pairs every ciphertext with every other one,
//! keeps the offsets where all pairings look like a pair of spaces, and reveals
//! key and plaintext bytes there.
use vstd::prelude::*;

use crate::combine::{
    combine_ciphers_remove_encryption_key, identify_non_whitespaces_indexes, is_space_candidate,
    lists_candidates, xor_seq, SPACE_MARK,
};

verus! {

/// The byte sequences held by a list of vectors.
pub open spec fn views(v: Seq<Vec<u8>>) -> Seq<Seq<u8>> {
    Seq::new(v.len(), |x: int| v[x]@)
}

/// The length of the longest ciphertext (zero for an empty list).
pub open spec fn max_len(cs: Seq<Seq<u8>>) -> nat
    decreases cs.len(),
{
    if cs.len() == 0 {
        0
    } else {
        let rest = max_len(cs.drop_last());
        if cs.last().len() > rest {
            cs.last().len()
        } else {
            rest
        }
    }
}

/// Offset `k` lies in ciphertext `i` and in at least one other ciphertext.
pub open spec fn overlaps_partner(cs: Seq<Seq<u8>>, i: int, k: int) -> bool {
    &&& 0 <= k < cs[i].len()
    &&& exists|j: int| 0 <= j < cs.len() && j != i && k < #[trigger] cs[j].len()
}

/// Every partner of ciphertext `i` among the first `m` ciphertexts that reaches
/// offset `k` combines with it there to a space candidate.
pub open spec fn survives_partners(cs: Seq<Seq<u8>>, i: int, m: int, k: int) -> bool {
    forall|j: int|
        0 <= j < m && j != i && k < #[trigger] cs[j].len() ==> is_space_candidate(
            cs[i][k] ^ cs[j][k],
        )
}

/// Offset `k` of ciphertext `i` is resolved: it is shared with some partner, and
/// every partner that reaches it combines with it to a space candidate.
pub open spec fn resolves(cs: Seq<Seq<u8>>, i: int, k: int) -> bool {
    overlaps_partner(cs, i, k) && survives_partners(cs, i, cs.len() as int, k)
}

/// The key byte at offset `k` once the first `m` ciphertexts have been
/// processed: the last of them that resolves `k` sets it, and it stays zero
/// where none does.
pub open spec fn key_byte(cs: Seq<Seq<u8>>, m: int, k: int) -> u8
    decreases m,
{
    if m <= 0 {
        0
    } else if resolves(cs, m - 1, k) {
        cs[m - 1][k] ^ SPACE_MARK
    } else {
        key_byte(cs, m - 1, k)
    }
}

/// The plaintext byte of ciphertext `j` at offset `k` once the first `m`
/// ciphertexts have been processed: the last partner of `j` among them that
/// resolves `k` sets it, and it stays zero where none does.
pub open spec fn plain_byte(cs: Seq<Seq<u8>>, m: int, j: int, k: int) -> u8
    decreases m,
{
    if m <= 0 {
        0
    } else if m - 1 != j && resolves(cs, m - 1, k) && k < cs[j].len() {
        (cs[m - 1][k] ^ cs[j][k]) ^ SPACE_MARK
    } else {
        plain_byte(cs, m - 1, j, k)
    }
}

/// The recovered key: as long as the longest ciphertext.
pub open spec fn key_model(cs: Seq<Seq<u8>>) -> Seq<u8> {
    Seq::new(max_len(cs), |k: int| key_byte(cs, cs.len() as int, k))
}

/// The recovered plaintexts after the first `m` ciphertexts: one per
/// ciphertext, each as long as its ciphertext.
pub open spec fn plaintexts_after(cs: Seq<Seq<u8>>, m: int) -> Seq<Seq<u8>> {
    Seq::new(cs.len(), |j: int| Seq::new(cs[j].len(), |k: int| plain_byte(cs, m, j, k)))
}

/// The recovered plaintexts.
pub open spec fn plaintexts_model(cs: Seq<Seq<u8>>) -> Seq<Seq<u8>> {
    plaintexts_after(cs, cs.len() as int)
}

/// The outcome of a recovery run: the partial key and one partial plaintext per
/// ciphertext. Unresolved bytes are zero.
pub struct Recovery {
    pub key: Vec<u8>,
    pub plaintexts: Vec<Vec<u8>>,
}

/// The length of the longest ciphertext.
fn longest_len(ciphers: &Vec<Vec<u8>>) -> (m: usize)
    ensures
        m == max_len(views(ciphers@)),
        forall|j: int| 0 <= j < ciphers@.len() ==> ciphers@[j]@.len() <= m,
{
    let ghost cs = views(ciphers@);
    let mut m: usize = 0;
    let mut j: usize = 0;
    while j < ciphers.len()
        invariant
            j <= ciphers@.len(),
            cs == views(ciphers@),
            m == max_len(cs.take(j as int)),
            forall|p: int| 0 <= p < j ==> ciphers@[p]@.len() <= m,
        decreases ciphers@.len() - j,
    {
        assert(cs.take(j + 1).drop_last() =~= cs.take(j as int));
        if ciphers[j].len() > m {
            m = ciphers[j].len();
        }
        j = j + 1;
    }
    assert(cs.take(j as int) =~= cs);
    m
}

/// The length of the longest ciphertext other than the one at `skip`.
fn longest_partner_len(ciphers: &Vec<Vec<u8>>, skip: usize) -> (m: usize)
    ensures
        forall|j: int| 0 <= j < ciphers@.len() && j != skip ==> ciphers@[j]@.len() <= m,
        m == 0 || exists|j: int|
            0 <= j < ciphers@.len() && j != skip && ciphers@[j]@.len() == m,
{
    let mut m: usize = 0;
    let mut j: usize = 0;
    while j < ciphers.len()
        invariant
            j <= ciphers@.len(),
            forall|p: int| 0 <= p < j && p != skip ==> ciphers@[p]@.len() <= m,
            m == 0 || exists|p: int| 0 <= p < j && p != skip && ciphers@[p]@.len() == m,
        decreases ciphers@.len() - j,
    {
        if j != skip && ciphers[j].len() > m {
            m = ciphers[j].len();
        }
        j = j + 1;
    }
    m
}

/// Marks, over `len` offsets, those that a detector listing names.
fn candidate_mask(offsets: &Vec<usize>, len: usize) -> (r: Vec<bool>)
    requires
        forall|q: int| 0 <= q < offsets@.len() ==> #[trigger] offsets@[q] < len,
    ensures
        r@.len() == len,
        forall|k: int| 0 <= k < len ==> (#[trigger] r@[k] <==> offsets@.contains(k as usize)),
{
    let mut r: Vec<bool> = Vec::new();
    let mut k: usize = 0;
    while k < len
        invariant
            k <= len,
            r@.len() == k,
            forall|p: int| 0 <= p < k ==> !#[trigger] r@[p],
        decreases len - k,
    {
        r.push(false);
        k = k + 1;
    }
    let mut q: usize = 0;
    while q < offsets.len()
        invariant
            q <= offsets@.len(),
            r@.len() == len,
            forall|q: int| 0 <= q < offsets@.len() ==> #[trigger] offsets@[q] < len,
            forall|p: int|
                0 <= p < len ==> (#[trigger] r@[p] <==> exists|t: int|
                    0 <= t < q && offsets@[t] == p as usize),
        decreases offsets@.len() - q,
    {
        let ghost prev = r@;
        let o = offsets[q];
        r.set(o, true);
        assert forall|p: int|
            0 <= p < len implies (#[trigger] r@[p] <==> exists|t: int|
                0 <= t < q + 1 && offsets@[t] == p as usize) by {
            if p == o as int {
                assert(offsets@[q as int] == p as usize);
            } else if r@[p] {
                assert(prev[p]);
            }
        }
        q = q + 1;
    }
    r
}

/// A plaintext row after revealing, at each resolved offset the combined bytes
/// reach, the combined byte XOR the mark; other bytes are kept.
fn reveal_row(row: &Vec<u8>, combined: &Vec<u8>, resolved: &Vec<bool>) -> (r: Vec<u8>)
    requires
        combined@.len() <= resolved@.len(),
        combined@.len() <= row@.len(),
    ensures
        r@.len() == row@.len(),
        forall|k: int|
            0 <= k < row@.len() ==> #[trigger] r@[k] == if k < combined@.len() && resolved@[k] {
                combined@[k] ^ SPACE_MARK
            } else {
                row@[k]
            },
{
    let mut r: Vec<u8> = Vec::with_capacity(row.len());
    let mut k: usize = 0;
    while k < row.len()
        invariant
            k <= row@.len(),
            r@.len() == k,
            combined@.len() <= resolved@.len(),
            forall|p: int|
                0 <= p < k ==> #[trigger] r@[p] == if p < combined@.len() && resolved@[p] {
                    combined@[p] ^ SPACE_MARK
                } else {
                    row@[p]
                },
        decreases row@.len() - k,
    {
        if k < combined.len() && resolved[k] {
            r.push(combined[k] ^ SPACE_MARK);
        } else {
            r.push(row[k]);
        }
        k = k + 1;
    }
    r
}

/// A byte vector of `len` zeros.
fn zeroed(len: usize) -> (r: Vec<u8>)
    ensures
        r@ == Seq::new(len as nat, |k: int| 0u8),
{
    let mut r: Vec<u8> = Vec::with_capacity(len);
    let mut k: usize = 0;
    while k < len
        invariant
            k <= len,
            r@ == Seq::new(k as nat, |p: int| 0u8),
        decreases len - k,
    {
        r.push(0);
        k = k + 1;
        assert(r@ =~= Seq::new(k as nat, |p: int| 0u8));
    }
    r
}

/// The whitespace-candidate vector of ciphertext `i` over its first `bound`
/// offsets: starts all true, and each partner clears the offsets where it
/// combines with ciphertext `i` to no space candidate.
fn space_candidates(ciphers: &Vec<Vec<u8>>, i: usize, bound: usize) -> (r: Vec<bool>)
    requires
        i < ciphers@.len(),
        bound <= ciphers@[i as int]@.len(),
        forall|j: int|
            0 <= j < ciphers@.len() && j != i ==> bound == ciphers@[i as int]@.len()
                || ciphers@[j]@.len() <= bound,
    ensures
        r@.len() == bound,
        forall|k: int|
            0 <= k < bound ==> (#[trigger] r@[k] <==> survives_partners(
                views(ciphers@),
                i as int,
                ciphers@.len() as int,
                k,
            )),
{
    let ghost cs = views(ciphers@);
    let mut r: Vec<bool> = Vec::new();
    let mut k: usize = 0;
    while k < bound
        invariant
            k <= bound,
            r@.len() == k,
            forall|p: int| 0 <= p < k ==> #[trigger] r@[p],
        decreases bound - k,
    {
        r.push(true);
        k = k + 1;
    }
    let c = &ciphers[i];
    assert(cs.len() == ciphers@.len());
    assert(forall|x: int| 0 <= x < cs.len() ==> #[trigger] cs[x] == ciphers@[x]@);
    let mut j: usize = 0;
    while j < ciphers.len()
        invariant
            j <= ciphers@.len(),
            cs == views(ciphers@),
            cs.len() == ciphers@.len(),
            forall|x: int| 0 <= x < cs.len() ==> #[trigger] cs[x] == ciphers@[x]@,
            i < ciphers@.len(),
            c@ == cs[i as int],
            bound <= c@.len(),
            forall|x: int|
                0 <= x < ciphers@.len() && x != i ==> bound == c@.len() || ciphers@[x]@.len()
                    <= bound,
            r@.len() == bound,
            forall|p: int|
                0 <= p < bound ==> (#[trigger] r@[p] <==> survives_partners(
                    cs,
                    i as int,
                    j as int,
                    p,
                )),
        decreases ciphers@.len() - j,
    {
        let ghost before = r@;
        if j != i {
            let combined = combine_ciphers_remove_encryption_key(c, &ciphers[j]);
            let ghost comb = combined@;
            let len = combined.len();
            let offsets = identify_non_whitespaces_indexes(combined);
            let mask = candidate_mask(&offsets, len);
            let mut k: usize = 0;
            while k < len
                invariant
                    k <= len,
                    len <= bound,
                    r@.len() == bound,
                    mask@.len() == len,
                    forall|p: int|
                        0 <= p < bound ==> (#[trigger] r@[p] <==> (before[p] && (p < k
                            ==> mask@[p]))),
                decreases len - k,
            {
                if !mask[k] {
                    r.set(k, false);
                }
                k = k + 1;
            }
            assert forall|p: int| 0 <= p < bound implies (#[trigger] r@[p] <==> survives_partners(
                cs,
                i as int,
                j + 1,
                p,
            )) by {
                if p < len {
                    assert(comb[p] == cs[i as int][p] ^ cs[j as int][p]);
                    if mask@[p] {
                        let q = choose|q: int| 0 <= q < offsets@.len() && offsets@[q] == p as usize;
                        assert(offsets@[q] == p as usize);
                    }
                }
                if r@[p] {
                    assert forall|t: int|
                        0 <= t < j + 1 && t != i && p < #[trigger] cs[t].len() implies is_space_candidate(
                        cs[i as int][p] ^ cs[t][p],
                    ) by {
                        if t < j {
                            assert(survives_partners(cs, i as int, j as int, p));
                        }
                    }
                }
            }
        } else {
            assert forall|p: int| 0 <= p < bound implies (#[trigger] r@[p] <==> survives_partners(
                cs,
                i as int,
                j + 1,
                p,
            )) by {
                if r@[p] {
                    assert forall|t: int|
                        0 <= t < j + 1 && t != i && p < #[trigger] cs[t].len() implies is_space_candidate(
                        cs[i as int][p] ^ cs[t][p],
                    ) by {
                        assert(survives_partners(cs, i as int, j as int, p));
                    }
                }
            }
        }
        j = j + 1;
    }
    r
}

/// Recovers a partial key and partial plaintexts from ciphertexts that share
/// one XOR key. Ciphertexts are processed in the order given; where several
/// resolve the same offset, the last one processed decides the byte.
pub fn recover(ciphers: &Vec<Vec<u8>>) -> (r: Recovery)
    ensures
        r.key@ == key_model(views(ciphers@)),
        views(r.plaintexts@) == plaintexts_model(views(ciphers@)),
{
    let ghost cs = views(ciphers@);
    let n = ciphers.len();
    assert(cs.len() == n);
    assert(forall|x: int| 0 <= x < cs.len() ==> #[trigger] cs[x] == ciphers@[x]@);
    let key_len = longest_len(ciphers);
    let mut key = zeroed(key_len);
    let mut plaintexts: Vec<Vec<u8>> = Vec::new();
    let mut j: usize = 0;
    while j < n
        invariant
            j <= n,
            n == ciphers@.len(),
            cs == views(ciphers@),
            cs.len() == n,
            forall|x: int| 0 <= x < cs.len() ==> #[trigger] cs[x] == ciphers@[x]@,
            plaintexts@.len() == j,
            views(plaintexts@) == plaintexts_after(cs, 0).take(j as int),
        decreases n - j,
    {
        let ghost before = plaintexts@;
        let row = zeroed(ciphers[j].len());
        plaintexts.push(row);
        j = j + 1;
        assert forall|x: int| 0 <= x < j implies views(plaintexts@)[x] == #[trigger] plaintexts_after(
            cs,
            0,
        )[x] by {
            if x < j - 1 {
                assert(views(before)[x] == before[x]@);
                assert(plaintexts_after(cs, 0).take(j - 1)[x] == plaintexts_after(cs, 0)[x]);
            } else {
                assert(plaintexts@[x]@ =~= plaintexts_after(cs, 0)[x]);
            }
        }
        assert(views(plaintexts@) =~= plaintexts_after(cs, 0).take(j as int));
    }
    assert(views(plaintexts@) =~= plaintexts_after(cs, 0));
    assert(key@ =~= Seq::new(key_len as nat, |k: int| key_byte(cs, 0, k)));
    let mut i: usize = 0;
    while i < n
        invariant
            i <= n,
            n == ciphers@.len(),
            cs == views(ciphers@),
            cs.len() == n,
            forall|x: int| 0 <= x < cs.len() ==> #[trigger] cs[x] == ciphers@[x]@,
            key_len == max_len(cs),
            forall|x: int| 0 <= x < n ==> ciphers@[x]@.len() <= key_len,
            key@ == Seq::new(key_len as nat, |k: int| key_byte(cs, i as int, k)),
            plaintexts@.len() == n,
            views(plaintexts@) == plaintexts_after(cs, i as int),
        decreases n - i,
    {
        let c = &ciphers[i];
        let other = longest_partner_len(ciphers, i);
        let bound: usize = if c.len() <= other {
            c.len()
        } else {
            other
        };
        let resolved = space_candidates(ciphers, i, bound);
        assert forall|k: int| 0 <= k < key_len implies (k < bound && #[trigger] resolved@[k]) <==> resolves(cs, i as int, k) by {
            if k < bound {
                let w = choose|w: int|
                    0 <= w < ciphers@.len() && w != i && ciphers@[w]@.len() == other;
                assert(k < cs[w].len());
            } else if overlaps_partner(cs, i as int, k) {
                let w = choose|w: int| 0 <= w < cs.len() && w != i && k < #[trigger] cs[w].len();
                assert(ciphers@[w]@.len() <= other);
            }
        }
        // Reveal the key bytes.
        let mut k: usize = 0;
        while k < bound
            invariant
                k <= bound,
                i < n,
                cs.len() == n,
                bound <= c@.len(),
                c@ == cs[i as int],
                c@.len() <= key_len,
                resolved@.len() == bound,
                forall|k: int|
                    0 <= k < key_len ==> ((k < bound && #[trigger] resolved@[k]) <==> resolves(
                        cs,
                        i as int,
                        k,
                    )),
                key@ == Seq::new(
                    key_len as nat,
                    |p: int|
                        if p < k {
                            key_byte(cs, i + 1, p)
                        } else {
                            key_byte(cs, i as int, p)
                        },
                ),
            decreases bound - k,
        {
            if resolved[k] {
                key.set(k, c[k] ^ SPACE_MARK);
            }
            k = k + 1;
            assert(key@ =~= Seq::new(
                key_len as nat,
                |p: int|
                    if p < k {
                        key_byte(cs, i + 1, p)
                    } else {
                        key_byte(cs, i as int, p)
                    },
            ));
        }
        assert(key@ =~= Seq::new(key_len as nat, |p: int| key_byte(cs, i + 1, p)));
        // Reveal the plaintext bytes of every partner.
        let mut j: usize = 0;
        while j < n
            invariant
                j <= n,
                n == ciphers@.len(),
                i < n,
                cs == views(ciphers@),
                cs.len() == n,
                forall|x: int| 0 <= x < cs.len() ==> #[trigger] cs[x] == ciphers@[x]@,
                c@ == cs[i as int],
                bound <= c@.len(),
                forall|x: int| 0 <= x < n && x != i ==> #[trigger] ciphers@[x]@.len() <= other,
                bound == c@.len() || bound == other,
                c@.len() <= key_len,
                forall|x: int| 0 <= x < n ==> ciphers@[x]@.len() <= key_len,
                resolved@.len() == bound,
                forall|k: int|
                    0 <= k < key_len ==> ((k < bound && #[trigger] resolved@[k]) <==> resolves(
                        cs,
                        i as int,
                        k,
                    )),
                plaintexts@.len() == n,
                views(plaintexts@) == Seq::new(
                    n as nat,
                    |x: int|
                        if x < j {
                            plaintexts_after(cs, i + 1)[x]
                        } else {
                            plaintexts_after(cs, i as int)[x]
                        },
                ),
            decreases n - j,
        {
            let ghost before = plaintexts@;
            let ghost old_rows = views(before);
            assert(views(before)[j as int] == before[j as int]@);
            if j != i {
                let combined = combine_ciphers_remove_encryption_key(c, &ciphers[j]);
                let row = reveal_row(&plaintexts[j], &combined, &resolved);
                plaintexts.set(j, row);
                assert(row@ =~= plaintexts_after(cs, i + 1)[j as int]);
            } else {
                assert(before[j as int]@ =~= plaintexts_after(cs, i + 1)[j as int]);
            }
            j = j + 1;
            assert(views(plaintexts@) =~= Seq::new(
                n as nat,
                |x: int|
                    if x < j {
                        plaintexts_after(cs, i + 1)[x]
                    } else {
                        plaintexts_after(cs, i as int)[x]
                    },
            )) by {
                assert forall|x: int| 0 <= x < n implies #[trigger] views(plaintexts@)[x] == if x < j {
                    plaintexts_after(cs, i + 1)[x]
                } else {
                    plaintexts_after(cs, i as int)[x]
                } by {
                    assert(views(plaintexts@)[x] == plaintexts@[x]@);
                    if x != j - 1 {
                        assert(old_rows[x] == before[x]@);
                        assert(plaintexts@[x] == before[x]);
                    }
                }
            }
        }
        assert(views(plaintexts@) =~= plaintexts_after(cs, i + 1));
        i = i + 1;
    }
    Recovery { key, plaintexts }
}

/// A ciphertext resolves no offset at or beyond its own length, so it reveals
/// no key byte there.
pub proof fn lemma_resolved_within_length(cs: Seq<Seq<u8>>, i: int, k: int)
    requires
        0 <= i < cs.len(),
        k >= cs[i].len(),
    ensures
        !resolves(cs, i, k),
{
}

/// Processing ciphertext `i` touches no offset at or beyond its own length:
/// there, the key and every plaintext stay as they were before it.
pub proof fn lemma_untouched_beyond_length(cs: Seq<Seq<u8>>, i: int, k: int)
    requires
        0 <= i < cs.len(),
        k >= cs[i].len(),
    ensures
        key_byte(cs, i + 1, k) == key_byte(cs, i, k),
        forall|j: int| 0 <= j < cs.len() ==> #[trigger] plain_byte(cs, i + 1, j, k) == plain_byte(cs, i, j, k),
{
}

} // verus!
