//! The term-reordering engine: computes the permutation that sorts a term
//! list lexicographically (stable for equal terms) and applies it to term
//! lines and, through [`crate::binary_collection::reorder`], to the
//! postings files.
use vstd::prelude::*;

verus! {

use crate::translate::byte_lines;
use crate::translate::lex_lt;
use crate::translate::lex_leq;
use crate::translate::lines_sorted;
use crate::translate::lex_less;

/// Strict lexicographic order is irreflexive.
pub proof fn lemma_lex_irrefl(a: Seq<u8>)
    ensures
        !lex_lt(a, a),
    decreases a.len(),
{
    if a.len() > 0 {
        lemma_lex_irrefl(a.drop_first());
    }
}

/// Two byte strings neither of which is below the other are equal.
pub proof fn lemma_lex_connected(a: Seq<u8>, b: Seq<u8>)
    requires
        !lex_lt(a, b),
        !lex_lt(b, a),
    ensures
        a == b,
    decreases a.len(),
{
    if a.len() == 0 {
        assert(b.len() == 0);
        assert(a =~= b);
    } else {
        assert(b.len() > 0);
        assert(a.first() == b.first());
        lemma_lex_connected(a.drop_first(), b.drop_first());
        assert(a[0] == b[0]);
        assert forall|i: int| 1 <= i < a.len() implies a[i] == b[i] by {
            assert(a[i] == a.drop_first()[i - 1]);
            assert(b[i] == b.drop_first()[i - 1]);
        }
        assert(a =~= b);
    }
}

/// Strict lexicographic order is transitive.
pub proof fn lemma_lex_trans(a: Seq<u8>, b: Seq<u8>, c: Seq<u8>)
    requires
        lex_lt(a, b),
        lex_lt(b, c),
    ensures
        lex_lt(a, c),
    decreases a.len(),
{
    if a.len() == 0 {
        assert(c.len() > 0);
    } else {
        assert(b.len() > 0 && c.len() > 0);
        if a.first() == b.first() && b.first() == c.first() {
            lemma_lex_trans(a.drop_first(), b.drop_first(), c.drop_first());
        }
    }
}

/// The order in which two positions of a key list must come out: strictly
/// by key, with the original position as the tie-break for equal keys.
pub open spec fn entry_below(keys: Seq<Seq<u8>>, a: int, b: int) -> bool {
    lex_lt(keys[a], keys[b]) || (keys[a] == keys[b] && a < b)
}

/// Whether `perm` holds the position `m` somewhere.
pub open spec fn perm_contains(perm: Seq<usize>, m: int) -> bool {
    exists|k: int| 0 <= k < perm.len() && (#[trigger] perm[k]) == m
}

/// Whether `perm` is the stable sorting permutation of `keys`: a
/// permutation of all positions, arranged strictly by key and original
/// position. `keys[perm[0]], keys[perm[1]], ...` is the sorted key list.
pub open spec fn sort_perm_of(perm: Seq<usize>, keys: Seq<Seq<u8>>) -> bool {
    &&& perm.len() == keys.len()
    &&& forall|k: int| 0 <= k < perm.len() ==> (#[trigger] perm[k]) < keys.len()
    &&& forall|m: int| 0 <= m < keys.len() ==> perm_contains(perm, m)
    &&& forall|k1: int, k2: int|
        0 <= k1 < k2 < perm.len() ==> entry_below(
            keys,
            #[trigger] perm[k1] as int,
            #[trigger] perm[k2] as int,
        )
}

/// Computes the permutation that sorts the given keys lexicographically,
/// keeping the original relative order of equal keys.
#[verifier::loop_isolation(false)]
pub fn sort_permutation(keys: &Vec<Vec<u8>>) -> (perm: Vec<usize>)
    ensures
        sort_perm_of(perm@, byte_lines(keys@)),
{
    let ghost km = byte_lines(keys@);
    let n = keys.len();
    let mut perm: Vec<usize> = Vec::new();
    let mut j: usize = 0;
    while j < n
        invariant
            0 <= j <= n,
            perm@.len() == j,
            forall|k: int| 0 <= k < perm@.len() ==> (#[trigger] perm@[k]) < j,
            forall|m: int| 0 <= m < j ==> perm_contains(perm@, m),
            forall|k1: int, k2: int|
                0 <= k1 < k2 < perm@.len() ==> entry_below(
                    km,
                    #[trigger] perm@[k1] as int,
                    #[trigger] perm@[k2] as int,
                ),
        decreases n - j,
    {
        let mut p: usize = 0;
        while p < perm.len() && !lex_less(&keys[j], &keys[perm[p]])
            invariant
                0 <= p <= perm@.len(),
                forall|k: int| 0 <= k < p ==> !lex_lt(km[j as int], km[(#[trigger] perm@[k]) as int]),
            decreases perm@.len() - p,
        {
            p = p + 1;
        }
        let ghost before = perm@;
        perm.insert(p, j);
        proof {
            before.insert_ensures(p as int, j);
            assert forall|m: int| 0 <= m < j + 1 implies perm_contains(perm@, m) by {
                if m == j {
                    assert(perm@[p as int] == j);
                } else {
                    assert(perm_contains(before, m));
                    let k0 = choose|k: int| 0 <= k < before.len() && (#[trigger] before[k]) == m;
                    if k0 < p {
                        assert(perm@[k0] == m);
                    } else {
                        assert(perm@[k0 + 1] == m);
                    }
                }
            }
            assert forall|k1: int, k2: int| 0 <= k1 < k2 < perm@.len() implies entry_below(
                km,
                #[trigger] perm@[k1] as int,
                #[trigger] perm@[k2] as int,
            ) by {
                let a = perm@[k1] as int;
                let b = perm@[k2] as int;
                if k2 < p {
                    assert(entry_below(km, a, b));
                } else if k1 > p {
                    assert(perm@[k1] == before[k1 - 1] && perm@[k2] == before[k2 - 1]);
                } else if k1 < p && k2 == p {
                    assert(b == j);
                    assert(!lex_lt(km[j as int], km[a]));
                    if !lex_lt(km[a], km[j as int]) {
                        lemma_lex_connected(km[a], km[j as int]);
                        assert(a < j);
                    }
                } else if k1 < p && k2 > p {
                    assert(perm@[k2] == before[k2 - 1]);
                    assert(entry_below(km, a, b));
                } else if k1 == p && k2 > p {
                    assert(a == j);
                    assert(perm@[k2] == before[k2 - 1]);
                    assert(p < before.len());
                    let w = before[p as int] as int;
                    assert(lex_lt(km[j as int], km[w]));
                    if k2 - 1 > p {
                        assert(entry_below(km, w, b));
                        if lex_lt(km[w], km[b]) {
                            lemma_lex_trans(km[j as int], km[w], km[b]);
                        }
                    }
                    assert(lex_lt(km[j as int], km[b]));
                    assert(entry_below(km, a, b));
                }
            }
        }
        j = j + 1;
    }
    perm
}

/// The lines picked out of `ls` at the positions in `order`, in that order.
pub open spec fn picked_lines(ls: Seq<Seq<u8>>, order: Seq<usize>) -> Seq<Seq<u8>> {
    Seq::new(order.len(), |i: int| ls[order[i] as int])
}

/// Copies the given lines in permuted order: line `order[i]` of the input
/// becomes line `i` of the output.
#[verifier::loop_isolation(false)]
pub fn apply_permutation(lines: &Vec<Vec<u8>>, order: &Vec<usize>) -> (r: Vec<Vec<u8>>)
    requires
        forall|k: int| 0 <= k < order@.len() ==> (#[trigger] order@[k]) < lines@.len(),
    ensures
        byte_lines(r@) == picked_lines(byte_lines(lines@), order@),
{
    let n = order.len();
    let mut out: Vec<Vec<u8>> = Vec::new();
    let mut i: usize = 0;
    while i < n
        invariant
            0 <= i <= n,
            out@.len() == i,
            forall|k: int|
                0 <= k < i ==> (#[trigger] out@[k])@ == byte_lines(lines@)[order@[k] as int],
        decreases n - i,
    {
        let line = lines[order[i]].clone();
        proof {
            assert(line@ =~= byte_lines(lines@)[order@[i as int] as int]);
        }
        out.push(line);
        i = i + 1;
    }
    proof {
        assert(byte_lines(out@) =~= picked_lines(byte_lines(lines@), order@));
    }
    out
}

/// The order used for a document-postings file: the leading
/// document-count singleton keeps its place, and every other position
/// moves as the term order says.
#[verifier::loop_isolation(false)]
pub fn order_keeping_first(order: &Vec<usize>) -> (r: Vec<usize>)
    requires
        forall|k: int| 0 <= k < order@.len() ==> (#[trigger] order@[k]) < usize::MAX,
    ensures
        r@.len() == order@.len() + 1,
        r@[0] == 0,
        forall|k: int| 1 <= k < r@.len() ==> (#[trigger] r@[k]) == order@[k - 1] + 1,
{
    let n = order.len();
    let mut out: Vec<usize> = Vec::new();
    out.push(0);
    let mut i: usize = 0;
    while i < n
        invariant
            0 <= i <= n,
            out@.len() == i + 1,
            out@[0] == 0,
            forall|k: int| 1 <= k < out@.len() ==> (#[trigger] out@[k]) == order@[k - 1] + 1,
        decreases n - i,
    {
        out.push(order[i] + 1);
        i = i + 1;
    }
    out
}

/// Reordering correctness, key half: the keys picked in the order of the
/// stable sorting permutation come out lexicographically sorted, and the
/// permutation reaches every position exactly once — so each reordered
/// postings sequence keeps its association with its term.
pub proof fn lemma_sort_permutation_restores_order(perm: Seq<usize>, keys: Seq<Seq<u8>>)
    requires
        sort_perm_of(perm, keys),
    ensures
        lines_sorted(picked_lines(keys, perm)),
        forall|m: int| 0 <= m < keys.len() ==> perm_contains(perm, m),
        forall|k1: int, k2: int|
            0 <= k1 < k2 < perm.len() ==> perm[k1] != perm[k2],
{
    let out = picked_lines(keys, perm);
    assert forall|i: int| 0 <= i && i + 1 < out.len() implies lex_leq(
        #[trigger] out[i],
        out[i + 1],
    ) by {
        let a = perm[i] as int;
        let b = perm[i + 1] as int;
        assert(entry_below(keys, a, b));
        if lex_lt(keys[a], keys[b]) {
            if lex_lt(keys[b], keys[a]) {
                lemma_lex_trans(keys[a], keys[b], keys[a]);
                lemma_lex_irrefl(keys[a]);
            }
        } else {
            lemma_lex_irrefl(keys[a]);
        }
    }
    assert forall|k1: int, k2: int| 0 <= k1 < k2 < perm.len() implies perm[k1] != perm[k2] by {
        assert(entry_below(keys, perm[k1] as int, perm[k2] as int));
        lemma_lex_irrefl(keys[perm[k1] as int]);
    }
}

} // verus!
