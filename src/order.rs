//! Ordering ciphertexts longest first, as the recovery run processes them.
use vstd::prelude::*;

use crate::recovery::views;

verus! {

/// Ciphertext `a` comes before ciphertext `b`: it is longer, or as long and
/// earlier in the input.
pub open spec fn precedes(cs: Seq<Seq<u8>>, a: int, b: int) -> bool {
    cs[a].len() > cs[b].len() || (cs[a].len() == cs[b].len() && a < b)
}

/// `order` lists every index of `cs` exactly once, longest ciphertext first,
/// ciphertexts of equal length in input order.
pub open spec fn is_length_order(cs: Seq<Seq<u8>>, order: Seq<usize>) -> bool {
    &&& order.len() == cs.len()
    &&& forall|q: int| 0 <= q < order.len() ==> #[trigger] order[q] < cs.len()
    &&& forall|x: usize| (x as int) < cs.len() ==> #[trigger] order.contains(x)
    &&& forall|p: int, q: int|
        0 <= p < q < order.len() ==> precedes(cs, #[trigger] order[p] as int, #[trigger] order[q] as int)
}

/// The indices of the ciphertexts, longest first and stable among equal lengths.
fn length_order(ciphers: &Vec<Vec<u8>>) -> (order: Vec<usize>)
    ensures
        is_length_order(views(ciphers@), order@),
{
    let ghost cs = views(ciphers@);
    let mut order: Vec<usize> = Vec::new();
    let mut x: usize = 0;
    while x < ciphers.len()
        invariant
            x <= ciphers@.len(),
            cs == views(ciphers@),
            cs.len() == ciphers@.len(),
            order@.len() == x,
            forall|q: int| 0 <= q < order@.len() ==> #[trigger] order@[q] < x,
            forall|y: usize| y < x ==> #[trigger] order@.contains(y),
            forall|p: int, q: int|
                0 <= p < q < order@.len() ==> precedes(cs, #[trigger] order@[p] as int, #[trigger] order@[q] as int),
        decreases ciphers@.len() - x,
    {
        let len = ciphers[x].len();
        assert(cs[x as int].len() == len);
        let mut p: usize = 0;
        while p < order.len() && ciphers[order[p]].len() >= len
            invariant
                p <= order@.len(),
                x < ciphers@.len(),
                cs == views(ciphers@),
                forall|q: int| 0 <= q < order@.len() ==> #[trigger] order@[q] < x,
                forall|t: int| 0 <= t < p ==> cs[#[trigger] order@[t] as int].len() >= len,
            decreases order@.len() - p,
        {
            assert(cs[order@[p as int] as int] == ciphers@[order@[p as int] as int]@);
            p = p + 1;
        }
        if p < order.len() {
            assert(cs[order@[p as int] as int] == ciphers@[order@[p as int] as int]@);
        }
        let ghost before = order@;
        order.insert(p, x);
        assert forall|q: int| 0 <= q < order@.len() implies #[trigger] order@[q] < x + 1 by {
            if q > p {
                assert(order@[q] == before[q - 1]);
            }
        }
        assert forall|y: usize| y < x + 1 implies #[trigger] order@.contains(y) by {
            if y == x {
                assert(order@[p as int] == y);
            } else {
                assert(before.contains(y));
                let t = choose|t: int| 0 <= t < before.len() && before[t] == y;
                if t < p {
                    assert(order@[t] == y);
                } else {
                    assert(order@[t + 1] == y);
                }
            }
        }
        assert forall|a: int, b: int| 0 <= a < b < order@.len() implies precedes(
            cs,
            #[trigger] order@[a] as int,
            #[trigger] order@[b] as int,
        ) by {
            if a < p && b < p {
                assert(precedes(cs, before[a] as int, before[b] as int));
            } else if a < p && b == p {
                assert(cs[before[a] as int].len() >= len);
            } else if a < p {
                assert(precedes(cs, before[a] as int, before[b - 1] as int));
            } else if a == p {
                // everything after the insertion point is shorter
                assert(cs[before[p as int] as int].len() < len);
                if b - 1 > p {
                    assert(precedes(cs, before[p as int] as int, before[b - 1] as int));
                }
            } else {
                assert(precedes(cs, before[a - 1] as int, before[b - 1] as int));
            }
        }
        x = x + 1;
    }
    order
}

/// A copy of a byte vector.
fn copy_bytes(v: &Vec<u8>) -> (r: Vec<u8>)
    ensures
        r@ == v@,
{
    let mut r: Vec<u8> = Vec::with_capacity(v.len());
    let mut k: usize = 0;
    while k < v.len()
        invariant
            k <= v@.len(),
            r@ == v@.subrange(0, k as int),
        decreases v@.len() - k,
    {
        r.push(v[k]);
        k = k + 1;
        assert(r@ =~= v@.subrange(0, k as int));
    }
    assert(r@ =~= v@);
    r
}

/// The ciphertexts sorted by descending length; ciphertexts of equal length
/// keep their input order.
pub fn sort_by_length(ciphers: &Vec<Vec<u8>>) -> (r: Vec<Vec<u8>>)
    ensures
        exists|order: Seq<usize>|
            is_length_order(views(ciphers@), order) && views(r@) == Seq::new(
                ciphers@.len(),
                |q: int| views(ciphers@)[order[q] as int],
            ),
{
    let ghost cs = views(ciphers@);
    let order = length_order(ciphers);
    let mut r: Vec<Vec<u8>> = Vec::new();
    let mut q: usize = 0;
    while q < order.len()
        invariant
            q <= order@.len(),
            cs == views(ciphers@),
            is_length_order(cs, order@),
            r@.len() == q,
            forall|t: int| 0 <= t < q ==> #[trigger] r@[t]@ == cs[order@[t] as int],
        decreases order@.len() - q,
    {
        assert(order@[q as int] < cs.len());
        let row = copy_bytes(&ciphers[order[q]]);
        r.push(row);
        q = q + 1;
    }
    assert(views(r@) =~= Seq::new(ciphers@.len(), |t: int| cs[order@[t] as int]));
    r
}

} // verus!
