//! The JSONL ingestion core: turns a list of scored documents — one per
//! input line, scores already reduced to integer term frequencies — into
//! a CIFF record stream. Internal identifiers are assigned densely in
//! first-seen order; entries with a non-positive frequency are dropped;
//! postings are grouped by term, ordered by document within each term,
//! and terms are emitted in sorted order; document records are emitted
//! sorted by internal identifier.
use vstd::prelude::*;

verus! {

use crate::records::CiffHeader;
use crate::records::ConversionError;
use crate::records::DocRecord;
use crate::records::Posting;
use crate::records::PostingsList;
use crate::reorder::entry_below;
use crate::reorder::lemma_lex_irrefl;
use crate::reorder::perm_contains;
use crate::reorder::sort_perm_of;
use crate::reorder::sort_permutation;
use crate::translate::byte_lines;
use crate::translate::delta_sum;
use crate::translate::lex_lt;
use crate::translate::posting_list_ok;
use crate::pipeline::all_lists_ok;

/// One term of a document vector, with its score already reduced to an
/// integer term frequency.
#[derive(Clone)]
pub struct TermScore {
    /// The term, as raw bytes.
    pub term: Vec<u8>,
    /// The integer frequency; entries at zero or below are dropped.
    pub tf: i32,
}

/// One input line: an external document identifier with its term vector.
#[derive(Clone)]
pub struct ScoredDocument {
    /// The external identifier, as raw bytes.
    pub id: Vec<u8>,
    /// The term vector.
    pub entries: Vec<TermScore>,
}

/// The external identifiers of the lines.
pub open spec fn ids_of(docs: Seq<ScoredDocument>) -> Seq<Seq<u8>> {
    Seq::new(docs.len(), |i: int| docs[i].id@)
}

/// The distinct identifiers among the first `k` lines, in first-seen
/// order.
pub open spec fn distinct_prefix(ids: Seq<Seq<u8>>, k: int) -> Seq<Seq<u8>>
    decreases k,
{
    if k <= 0 {
        Seq::empty()
    } else {
        let p = distinct_prefix(ids, k - 1);
        if p.contains(ids[k - 1]) {
            p
        } else {
            p.push(ids[k - 1])
        }
    }
}

/// The first position of `x` in `ls`, or `-1` if absent.
pub open spec fn find_first(ls: Seq<Seq<u8>>, x: Seq<u8>) -> int
    decreases ls.len(),
{
    if ls.len() == 0 {
        -1
    } else if ls.first() == x {
        0
    } else {
        let r = find_first(ls.drop_first(), x);
        if r < 0 {
            -1
        } else {
            r + 1
        }
    }
}

/// The internal identifier assigned to line `i`: the position of its
/// external identifier among the distinct identifiers seen so far.
pub open spec fn assigned_id(ids: Seq<Seq<u8>>, i: int) -> int {
    find_first(distinct_prefix(ids, i + 1), ids[i])
}

/// How many entries of the first `k` carry a positive frequency.
pub open spec fn kept_in_line(es: Seq<TermScore>, k: int) -> int
    decreases k,
{
    if k <= 0 {
        0
    } else {
        kept_in_line(es, k - 1) + if es[k - 1].tf > 0 {
            1int
        } else {
            0int
        }
    }
}

/// The length of line `i`'s document: its kept entries.
pub open spec fn line_length(docs: Seq<ScoredDocument>, i: int) -> int {
    kept_in_line(docs[i].entries@, docs[i].entries@.len() as int)
}

/// Total kept entries over the first `k` lines.
pub open spec fn total_kept(docs: Seq<ScoredDocument>, k: int) -> int
    decreases k,
{
    if k <= 0 {
        0
    } else {
        total_kept(docs, k - 1) + line_length(docs, k - 1)
    }
}

/// Sum of the frequencies of the first `k` postings.
pub open spec fn tf_sum(ps: Seq<Posting>, k: int) -> int
    decreases k,
{
    if k <= 0 {
        0
    } else {
        tf_sum(ps, k - 1) + ps[k - 1].tf
    }
}

/// A 32-bit value as four big-endian bytes; byte-wise lexicographic order
/// on these keys is numeric order on the values.
pub open spec fn be32_bytes(x: u32) -> Seq<u8> {
    seq![(x >> 24) as u8, (x >> 16) as u8, (x >> 8) as u8, x as u8]
}

/// The sorting keys of the lines: the assigned identifiers as big-endian
/// bytes.
pub open spec fn docid_keys(docs: Seq<ScoredDocument>) -> Seq<Seq<u8>> {
    Seq::new(docs.len(), |i: int| be32_bytes(assigned_id(ids_of(docs), i) as u32))
}

/// The kept entries of one term vector, as postings under the given
/// internal identifier, in entry order.
pub open spec fn line_postings(es: Seq<TermScore>, docid: int, k: int) -> Seq<Posting>
    decreases k,
{
    if k <= 0 {
        Seq::empty()
    } else {
        line_postings(es, docid, k - 1) + if es[k - 1].tf > 0 {
            seq![Posting { docid: docid as i32, tf: es[k - 1].tf }]
        } else {
            Seq::empty()
        }
    }
}

/// The terms of the kept entries of one term vector, in entry order.
pub open spec fn line_terms(es: Seq<TermScore>, k: int) -> Seq<Seq<u8>>
    decreases k,
{
    if k <= 0 {
        Seq::empty()
    } else {
        line_terms(es, k - 1) + if es[k - 1].tf > 0 {
            seq![es[k - 1].term@]
        } else {
            Seq::empty()
        }
    }
}

/// All kept entries of the first `i` lines, flattened in input order,
/// each under its line's assigned identifier.
pub open spec fn flat_entries(docs: Seq<ScoredDocument>, i: int) -> Seq<Posting>
    decreases i,
{
    if i <= 0 {
        Seq::empty()
    } else {
        flat_entries(docs, i - 1) + line_postings(
            docs[i - 1].entries@,
            assigned_id(ids_of(docs), i - 1),
            docs[i - 1].entries@.len() as int,
        )
    }
}

/// The terms of all kept entries of the first `i` lines, in input order.
pub open spec fn flat_terms_of(docs: Seq<ScoredDocument>, i: int) -> Seq<Seq<u8>>
    decreases i,
{
    if i <= 0 {
        Seq::empty()
    } else {
        flat_terms_of(docs, i - 1) + line_terms(
            docs[i - 1].entries@,
            docs[i - 1].entries@.len() as int,
        )
    }
}

/// The flattened entries whose term is `t`, among the first `k`, in
/// input order.
pub open spec fn matching(
    fe: Seq<Posting>,
    ft: Seq<Seq<u8>>,
    t: Seq<u8>,
    k: int,
) -> Seq<Posting>
    decreases k,
{
    if k <= 0 {
        Seq::empty()
    } else {
        matching(fe, ft, t, k - 1) + if ft[k - 1] == t {
            seq![fe[k - 1]]
        } else {
            Seq::empty()
        }
    }
}

/// The document identifiers of postings, as big-endian sort keys.
pub open spec fn posting_docid_keys(ps: Seq<Posting>) -> Seq<Seq<u8>> {
    Seq::new(ps.len(), |j: int| be32_bytes(ps[j].docid as u32))
}

/// Whether `pl` holds exactly the postings `mg`, re-ordered stably by
/// document identifier and delta-coded: position `j` decodes to the
/// identifier and frequency of `mg[go[j]]` under the stable sorting
/// permutation `go` of the identifiers.
pub open spec fn list_collects(pl: PostingsList, mg: Seq<Posting>) -> bool {
    exists|go: Seq<usize>|
        #[trigger] sort_perm_of(go, posting_docid_keys(mg)) && collect_follows(pl, mg, go)
}

/// Whether position `j` of the delta-coded postings decodes to the
/// identifier and frequency of `mg[go[j]]`.
pub open spec fn collect_follows(pl: PostingsList, mg: Seq<Posting>, go: Seq<usize>) -> bool {
    &&& pl.postings@.len() == mg.len()
    &&& go.len() == mg.len()
    &&& forall|j: int|
        0 <= j < mg.len() ==> delta_sum(pl.postings@, j + 1) == (#[trigger] mg[go[j] as int]).docid
            && pl.postings@[j].tf == mg[go[j] as int].tf
}

/// Matching entries are as many as the matching count.
proof fn lemma_matching_len(fe: Seq<Posting>, ft: Seq<Seq<u8>>, t: Seq<u8>, k: int)
    ensures
        matching(fe, ft, t, k).len() == count_prefix(ft, t, k),
    decreases k,
{
    if k > 0 {
        lemma_matching_len(fe, ft, t, k - 1);
    }
}

/// Byte-wise lexicographic order on big-endian keys is numeric order.
pub proof fn lemma_be32_order(a: u32, b: u32)
    ensures
        lex_lt(be32_bytes(a), be32_bytes(b)) <==> a < b,
        be32_bytes(a) == be32_bytes(b) <==> a == b,
{
    reveal_with_fuel(lex_lt, 6);
    let sa = be32_bytes(a);
    let sb = be32_bytes(b);
    assert(sa.drop_first() =~= seq![(a >> 16) as u8, (a >> 8) as u8, a as u8]);
    assert(sb.drop_first() =~= seq![(b >> 16) as u8, (b >> 8) as u8, b as u8]);
    assert(sa.drop_first().drop_first() =~= seq![(a >> 8) as u8, a as u8]);
    assert(sb.drop_first().drop_first() =~= seq![(b >> 8) as u8, b as u8]);
    assert(sa.drop_first().drop_first().drop_first() =~= seq![a as u8]);
    assert(sb.drop_first().drop_first().drop_first() =~= seq![b as u8]);
    assert(seq![a as u8].drop_first() =~= Seq::<u8>::empty());
    assert(lex_lt(sa, sb) == (((a >> 24) as u8) < ((b >> 24) as u8) || ((a >> 24) as u8 == (b
        >> 24) as u8 && (((a >> 16) as u8) < ((b >> 16) as u8) || ((a >> 16) as u8 == (b >> 16)
        as u8 && (((a >> 8) as u8) < ((b >> 8) as u8) || ((a >> 8) as u8 == (b >> 8) as u8 && ((
        a as u8) < (b as u8)))))))));
    assert((((a >> 24) as u8) < ((b >> 24) as u8) || ((a >> 24) as u8 == (b >> 24) as u8 && (((a
        >> 16) as u8) < ((b >> 16) as u8) || ((a >> 16) as u8 == (b >> 16) as u8 && (((a >> 8)
        as u8) < ((b >> 8) as u8) || ((a >> 8) as u8 == (b >> 8) as u8 && ((a as u8) < (b
        as u8)))))))) == (a < b)) by (bit_vector);
    assert(((a >> 24) as u8 == (b >> 24) as u8 && (a >> 16) as u8 == (b >> 16) as u8 && (a >> 8)
        as u8 == (b >> 8) as u8 && a as u8 == b as u8) == (a == b)) by (bit_vector);
    if a == b {
        assert(sa =~= sb);
    }
    if sa == sb {
        assert((a >> 24) as u8 == (b >> 24) as u8 && (a >> 16) as u8 == (b >> 16) as u8 && (a >> 8)
            as u8 == (b >> 8) as u8 && a as u8 == b as u8);
    }
}

/// Encodes a non-negative 32-bit value as its four big-endian bytes.
fn be32_key(x: u32) -> (r: Vec<u8>)
    ensures
        r@ == be32_bytes(x),
{
    let mut key: Vec<u8> = Vec::new();
    key.push((x >> 24) as u8);
    key.push((x >> 16) as u8);
    key.push((x >> 8) as u8);
    key.push(x as u8);
    proof {
        assert(key@ =~= be32_bytes(x));
    }
    key
}

/// A scan that found no match among the first `p` lines pins down
/// [`find_first`].
proof fn lemma_find_first_scan(ls: Seq<Seq<u8>>, x: Seq<u8>, p: int)
    requires
        0 <= p <= ls.len(),
        forall|j: int| 0 <= j < p ==> ls[j] != x,
    ensures
        p < ls.len() && ls[p] == x ==> find_first(ls, x) == p,
        p == ls.len() ==> find_first(ls, x) == -1,
    decreases p,
{
    if p == 0 {
        if p < ls.len() && ls[p] == x {
        } else if p == ls.len() {
        }
    } else {
        lemma_find_first_scan(ls.drop_first(), x, p - 1);
        assert(ls.first() != x);
    }
}

/// Finds the first line equal to `needle`, scanning from the front.
fn find_line(haystack: &Vec<Vec<u8>>, needle: &Vec<u8>) -> (r: Option<usize>)
    ensures
        match r {
            Some(k) => k < haystack@.len() && find_first(byte_lines(haystack@), needle@)
                == k as int,
            None => find_first(byte_lines(haystack@), needle@) == -1,
        },
{
    let n = haystack.len();
    let mut p: usize = 0;
    while p < n
        invariant
            n == haystack@.len(),
            0 <= p <= n,
            forall|j: int| 0 <= j < p ==> byte_lines(haystack@)[j] != needle@,
        decreases n - p,
    {
        if bytes_equal(&haystack[p], needle) {
            proof {
                lemma_find_first_scan(byte_lines(haystack@), needle@, p as int);
            }
            return Some(p);
        }
        p = p + 1;
    }
    proof {
        lemma_find_first_scan(byte_lines(haystack@), needle@, n as int);
    }
    None
}

/// What [`find_first`] finding or missing an element means.
proof fn lemma_find_first_props(ls: Seq<Seq<u8>>, x: Seq<u8>)
    ensures
        find_first(ls, x) >= 0 <==> ls.contains(x),
        find_first(ls, x) >= 0 ==> find_first(ls, x) < ls.len() && ls[find_first(ls, x)] == x,
    decreases ls.len(),
{
    if ls.len() > 0 {
        lemma_find_first_props(ls.drop_first(), x);
        if ls.first() == x {
            assert(ls[0] == x);
        } else {
            let r = find_first(ls.drop_first(), x);
            if r >= 0 {
                assert(ls[r + 1] == ls.drop_first()[r]);
                assert(ls.contains(x));
            } else {
                if ls.contains(x) {
                    let w = choose|w: int| 0 <= w < ls.len() && ls[w] == x;
                    assert(w != 0);
                    assert(ls.drop_first()[w - 1] == x);
                    assert(ls.drop_first().contains(x));
                }
            }
        }
    }
}

/// Kept-entry counts never shrink as entries are added.
proof fn lemma_kept_mono(es: Seq<TermScore>, a: int, b: int)
    requires
        a <= b,
    ensures
        kept_in_line(es, a) <= kept_in_line(es, b),
    decreases b - a,
{
    if a < b {
        lemma_kept_mono(es, a, b - 1);
    }
}

/// Totals never shrink as lines are added.
proof fn lemma_total_kept_mono(docs: Seq<ScoredDocument>, a: int, b: int)
    requires
        a <= b,
    ensures
        total_kept(docs, a) <= total_kept(docs, b),
    decreases b - a,
{
    if a < b {
        lemma_total_kept_mono(docs, a, b - 1);
        lemma_kept_mono(docs[b - 1].entries@, 0, docs[b - 1].entries@.len() as int);
    }
}

/// One line's kept count is within the total over all lines.
proof fn lemma_total_kept_line_bound(docs: Seq<ScoredDocument>, i: int)
    requires
        0 <= i < docs.len(),
    ensures
        line_length(docs, i) <= total_kept(docs, docs.len() as int),
{
    lemma_total_kept_mono(docs, 0, i);
    lemma_total_kept_mono(docs, i + 1, docs.len() as int);
    lemma_kept_mono(docs[i].entries@, 0, docs[i].entries@.len() as int);
}

/// Compares two byte strings for equality.
pub fn bytes_equal(a: &Vec<u8>, b: &Vec<u8>) -> (r: bool)
    ensures
        r == (a@ == b@),
{
    if a.len() != b.len() {
        return false;
    }
    let n = a.len();
    let mut i: usize = 0;
    while i < n
        invariant
            n == a@.len() == b@.len(),
            0 <= i <= n,
            forall|j: int| 0 <= j < i ==> a@[j] == b@[j],
        decreases n - i,
    {
        if a[i] != b[i] {
            return false;
        }
        i = i + 1;
    }
    proof {
        assert(a@ =~= b@);
    }
    true
}

/// How many of the first `k` lines equal `t`.
pub open spec fn count_prefix(ts: Seq<Seq<u8>>, t: Seq<u8>, k: int) -> int
    decreases k,
{
    if k <= 0 {
        0
    } else {
        count_prefix(ts, t, k - 1) + if ts[k - 1] == t {
            1int
        } else {
            0int
        }
    }
}

/// Sum, over the first `k` keys, of how many lines carry each key.
pub open spec fn sum_counts(ts: Seq<Seq<u8>>, keys: Seq<Seq<u8>>, k: int) -> int
    decreases k,
{
    if k <= 0 {
        0
    } else {
        sum_counts(ts, keys, k - 1) + count_prefix(ts, keys[k - 1], ts.len() as int)
    }
}

/// Sum of the declared document frequencies of the first `k` lists.
pub open spec fn df_total(lists: Seq<PostingsList>, k: int) -> int
    decreases k,
{
    if k <= 0 {
        0
    } else {
        df_total(lists, k - 1) + lists[k - 1].df
    }
}

/// A prefix of the frequency totals is unchanged by a push at the back.
proof fn lemma_df_total_push(lists: Seq<PostingsList>, appended: PostingsList, k: int)
    requires
        0 <= k <= lists.len(),
    ensures
        df_total(lists.push(appended), k) == df_total(lists, k),
    decreases k,
{
    if k > 0 {
        lemma_df_total_push(lists, appended, k - 1);
        assert(lists.push(appended)[k - 1] == lists[k - 1]);
    }
}

/// Counts within a proper prefix ignore the last line.
proof fn lemma_count_prefix_drop_last(ts: Seq<Seq<u8>>, t: Seq<u8>, k: int)
    requires
        0 <= k < ts.len(),
    ensures
        count_prefix(ts.drop_last(), t, k) == count_prefix(ts, t, k),
    decreases k,
{
    if k > 0 {
        lemma_count_prefix_drop_last(ts, t, k - 1);
        assert(ts.drop_last()[k - 1] == ts[k - 1]);
    }
}

/// Whether no two keys are the same byte string.
pub open spec fn keys_distinct(keys: Seq<Seq<u8>>) -> bool {
    forall|k1: int, k2: int|
        #![trigger keys[k1], keys[k2]]
        0 <= k1 < k2 < keys.len() ==> keys[k1] != keys[k2]
}

/// Whether each of the first `k` lines carries one of the keys.
pub open spec fn keys_cover(ts: Seq<Seq<u8>>, keys: Seq<Seq<u8>>, k: int) -> bool
    decreases k,
{
    k <= 0 || (keys_cover(ts, keys, k - 1) && keys.contains(ts[k - 1]))
}

/// A covered prefix is untouched by a push at the back of the lines.
proof fn lemma_cover_stable(ts: Seq<Seq<u8>>, keys: Seq<Seq<u8>>, line: Seq<u8>, k: int)
    requires
        0 <= k <= ts.len(),
    ensures
        keys_cover(ts.push(line), keys, k) == keys_cover(ts, keys, k),
    decreases k,
{
    if k > 0 {
        lemma_cover_stable(ts, keys, line, k - 1);
        assert(ts.push(line)[k - 1] == ts[k - 1]);
    }
}

/// Appending a fresh key keeps the keys distinct.
proof fn lemma_distinct_push(keys: Seq<Seq<u8>>, fresh: Seq<u8>)
    requires
        keys_distinct(keys),
        forall|k: int| 0 <= k < keys.len() ==> #[trigger] keys[k] != fresh,
    ensures
        keys_distinct(keys.push(fresh)),
{
    let grown = keys.push(fresh);
    assert forall|k1: int, k2: int|
        #![trigger grown[k1], grown[k2]]
        0 <= k1 < k2 < grown.len() implies grown[k1] != grown[k2] by {
        if k2 == grown.len() - 1 {
            assert(grown[k1] == keys[k1] && grown[k2] == fresh);
        } else {
            assert(grown[k1] == keys[k1] && grown[k2] == keys[k2]);
        }
    }
}

/// More keys never cover less.
proof fn lemma_cover_grow_keys(ts: Seq<Seq<u8>>, keys: Seq<Seq<u8>>, fresh: Seq<u8>, k: int)
    requires
        0 <= k <= ts.len(),
        keys_cover(ts, keys, k),
    ensures
        keys_cover(ts, keys.push(fresh), k),
    decreases k,
{
    if k > 0 {
        lemma_cover_grow_keys(ts, keys, fresh, k - 1);
        let w = choose|w: int| 0 <= w < keys.len() && keys[w] == ts[k - 1];
        assert(keys.push(fresh)[w] == ts[k - 1]);
        assert(keys.push(fresh).contains(ts[k - 1]));
    }
}

/// A covered line list stays covered with one more covered line.
proof fn lemma_cover_push_line(ts: Seq<Seq<u8>>, keys: Seq<Seq<u8>>, line: Seq<u8>)
    requires
        keys_cover(ts, keys, ts.len() as int),
        keys.contains(line),
    ensures
        keys_cover(ts.push(line), keys, ts.len() as int + 1),
{
    lemma_cover_stable(ts, keys, line, ts.len() as int);
    assert(ts.push(line)[ts.len() as int] == line);
}

/// With distinct keys, the last line raises exactly its own key's count.
proof fn lemma_sum_counts_step(ts: Seq<Seq<u8>>, keys: Seq<Seq<u8>>, k: int, k0: int)
    requires
        ts.len() >= 1,
        0 <= k <= keys.len(),
        0 <= k0 < keys.len(),
        keys[k0] == ts.last(),
        keys_distinct(keys),
    ensures
        sum_counts(ts, keys, k) == sum_counts(ts.drop_last(), keys, k) + if k0 < k {
            1int
        } else {
            0int
        },
    decreases k,
{
    if k > 0 {
        lemma_sum_counts_step(ts, keys, k - 1, k0);
        lemma_count_prefix_drop_last(ts, keys[k - 1], ts.len() - 1);
        if k - 1 != k0 {
            if k - 1 < k0 {
                assert(keys[k - 1] != keys[k0]);
            } else {
                assert(keys[k0] != keys[k - 1]);
            }
        }
    }
}

/// No line, no counts.
proof fn lemma_sum_counts_empty(ts: Seq<Seq<u8>>, keys: Seq<Seq<u8>>, k: int)
    requires
        ts.len() == 0,
    ensures
        sum_counts(ts, keys, k) == 0,
    decreases k,
{
    if k > 0 {
        lemma_sum_counts_empty(ts, keys, k - 1);
    }
}

/// Keys picked by a permutation that reaches every position cover
/// whatever the keys themselves cover.
proof fn lemma_cover_translate(
    ts: Seq<Seq<u8>>,
    keys: Seq<Seq<u8>>,
    picked: Seq<Seq<u8>>,
    order: Seq<usize>,
    k: int,
)
    requires
        0 <= k <= ts.len(),
        keys_cover(ts, keys, k),
        picked.len() == order.len(),
        forall|p: int|
            0 <= p < order.len() ==> (#[trigger] order[p]) < keys.len() && picked[p]
                == keys[order[p] as int],
        forall|m: int| 0 <= m < keys.len() ==> perm_contains(order, m),
    ensures
        keys_cover(ts, picked, k),
    decreases k,
{
    if k > 0 {
        lemma_cover_translate(ts, keys, picked, order, k - 1);
        let m = choose|m: int| 0 <= m < keys.len() && keys[m] == ts[k - 1];
        assert(perm_contains(order, m));
        let p = choose|p: int| 0 <= p < order.len() && (#[trigger] order[p]) == m;
        assert(picked[p] == ts[k - 1]);
        assert(picked.contains(ts[k - 1]));
    }
}

/// Distinct keys that cover every line count each line exactly once.
proof fn lemma_partition_count(ts: Seq<Seq<u8>>, keys: Seq<Seq<u8>>)
    requires
        keys_distinct(keys),
        keys_cover(ts, keys, ts.len() as int),
    ensures
        sum_counts(ts, keys, keys.len() as int) == ts.len(),
    decreases ts.len(),
{
    if ts.len() == 0 {
        lemma_sum_counts_empty(ts, keys, keys.len() as int);
    } else {
        let shorter = ts.drop_last();
        assert(keys_cover(ts, keys, ts.len() - 1) && keys.contains(ts[ts.len() - 1]));
        assert forall|k: int| 0 <= k <= shorter.len() implies keys_cover(shorter, keys, k)
            == keys_cover(ts, keys, k) by {
            lemma_cover_prefix_agree(ts, keys, k);
        }
        lemma_partition_count(shorter, keys);
        assert(ts[ts.len() - 1] == ts.last());
        let k0 = choose|k: int| 0 <= k < keys.len() && keys[k] == ts[ts.len() - 1];
        lemma_sum_counts_step(ts, keys, keys.len() as int, k0);
    }
}

/// Coverage of a proper prefix ignores the last line.
proof fn lemma_cover_prefix_agree(ts: Seq<Seq<u8>>, keys: Seq<Seq<u8>>, k: int)
    requires
        ts.len() > 0,
        0 <= k <= ts.len() - 1,
    ensures
        keys_cover(ts.drop_last(), keys, k) == keys_cover(ts, keys, k),
    decreases k,
{
    if k > 0 {
        lemma_cover_prefix_agree(ts, keys, k - 1);
        assert(ts.drop_last()[k - 1] == ts[k - 1]);
    }
}

/// Whether `records` lists the per-line document records in the order of
/// the permutation `perm`: record `k` belongs to line `perm[k]` and
/// carries that line's assigned identifier, external identifier and kept
/// entry count.
pub open spec fn records_follow(
    records: Seq<DocRecord>,
    docs: Seq<ScoredDocument>,
    perm: Seq<usize>,
) -> bool {
    &&& perm.len() == docs.len()
    &&& records.len() == docs.len()
    &&& forall|k: int|
        0 <= k < records.len() ==> {
            &&& (#[trigger] records[k]).docid == assigned_id(ids_of(docs), perm[k] as int)
            &&& records[k].collection_docid@ == ids_of(docs)[perm[k] as int]
            &&& records[k].doclength == line_length(docs, perm[k] as int)
        }
}

/// Well-formedness of an emitted postings list: the declared document
/// frequency is the posting count, the collection frequency is the sum of
/// the frequencies, every frequency is positive, and every stored delta
/// is non-negative (the documents come in ascending order).
pub open spec fn wf_output_list(pl: PostingsList) -> bool {
    &&& pl.df == pl.postings@.len()
    &&& pl.cf == tf_sum(pl.postings@, pl.postings@.len() as int)
    &&& forall|j: int|
        0 <= j < pl.postings@.len() ==> (#[trigger] pl.postings@[j]).tf > 0
            && pl.postings@[j].docid >= 0
}

/// Builds the CIFF record stream from the scored lines. Identifiers are
/// assigned densely in first-seen order; entries at zero or below are
/// dropped and do not count toward document length; document records come
/// out sorted by identifier, the per-line order kept for equal
/// identifiers; postings lists carry sorted distinct terms, each with its
/// documents in ascending order. Fails only when a count outgrows its
/// wire field, which cannot happen while the line count and the total
/// kept entry count stay within the signed 32-bit range.
#[verifier::loop_isolation(false)]
#[verifier::rlimit(100)]
pub fn jsonl_to_ciff_records(docs: &Vec<ScoredDocument>, description: &Vec<u8>) -> (r: Result<
    (CiffHeader, Vec<PostingsList>, Vec<DocRecord>),
    ConversionError,
>)
    ensures
        match r {
            Ok((header, lists, records)) => {
                &&& header.version == 1
                &&& header.num_docs == docs@.len()
                &&& header.total_docs == header.num_docs
                &&& header.num_postings_lists == lists@.len()
                &&& header.total_postings_lists == header.num_postings_lists
                &&& header.total_terms_in_collection == total_kept(docs@, docs@.len() as int)
                &&& header.description@ == description@
                &&& records@.len() == docs@.len()
                &&& exists|perm: Seq<usize>|
                    #[trigger] sort_perm_of(perm, docid_keys(docs@)) && records_follow(
                        records@,
                        docs@,
                        perm,
                    )
                &&& forall|k: int|
                    0 <= k && k + 1 < records@.len() ==> (#[trigger] records@[k]).docid
                        <= records@[k + 1].docid
                &&& all_lists_ok(lists@)
                &&& forall|k: int|
                    0 <= k && k + 1 < lists@.len() ==> lex_lt(
                        (#[trigger] lists@[k]).term@,
                        lists@[k + 1].term@,
                    )
                &&& forall|k: int| 0 <= k < lists@.len() ==> wf_output_list(#[trigger] lists@[k])
                &&& df_total(lists@, lists@.len() as int) == total_kept(docs@, docs@.len() as int)
                &&& forall|g: int|
                    0 <= g < lists@.len() ==> list_collects(
                        #[trigger] lists@[g],
                        matching(
                            flat_entries(docs@, docs@.len() as int),
                            flat_terms_of(docs@, docs@.len() as int),
                            lists@[g].term@,
                            total_kept(docs@, docs@.len() as int),
                        ),
                    )
            },
            Err(e) => {
                &&& e is CountOverflow
                &&& !(docs@.len() <= i32::MAX && total_kept(docs@, docs@.len() as int)
                    <= i32::MAX)
            },
        },
{
    let line_count = docs.len();
    if line_count > i32::MAX as usize {
        return Err(ConversionError::CountOverflow);
    }
    let ghost ids = ids_of(docs@);

    // First pass over the lines: assign identifiers, measure document
    // lengths, and flatten the kept entries.
    let mut seen: Vec<Vec<u8>> = Vec::new();
    let mut line_docids: Vec<i32> = Vec::new();
    let mut line_lengths: Vec<i32> = Vec::new();
    let mut keys: Vec<Vec<u8>> = Vec::new();
    let mut term_list: Vec<Vec<u8>> = Vec::new();
    let mut flat_terms: Vec<Vec<u8>> = Vec::new();
    let mut flat: Vec<Posting> = Vec::new();
    let mut total: i64 = 0;
    let mut i: usize = 0;
    while i < line_count
        invariant
            0 <= i <= line_count,
            byte_lines(seen@) == distinct_prefix(ids, i as int),
            seen@.len() <= i,
            line_docids@.len() == i,
            line_lengths@.len() == i,
            keys@.len() == i,
            forall|k: int| 0 <= k < i ==> (#[trigger] line_docids@[k]) == assigned_id(ids, k),
            forall|k: int| 0 <= k < i ==> 0 <= #[trigger] assigned_id(ids, k) < line_count,
            forall|k: int| 0 <= k < i ==> (#[trigger] line_lengths@[k]) == line_length(docs@, k),
            forall|k: int| 0 <= k < i ==> (#[trigger] keys@[k])@ == docid_keys(docs@)[k],
            total == total_kept(docs@, i as int),
            total <= i * 0x7fff_ffff,
            flat_terms@.len() == flat@.len(),
            flat@.len() == total,
            flat@ == flat_entries(docs@, i as int),
            byte_lines(flat_terms@) == flat_terms_of(docs@, i as int),
            term_list@.len() <= flat@.len(),
            forall|k: int|
                0 <= k < flat@.len() ==> (#[trigger] flat@[k]).tf > 0 && 0 <= flat@[k].docid,
            keys_distinct(byte_lines(term_list@)),
            keys_cover(
                byte_lines(flat_terms@),
                byte_lines(term_list@),
                flat_terms@.len() as int,
            ),
        decreases line_count - i,
    {
        let ghost seen_model = byte_lines(seen@);
        let docid_idx: usize = match find_line(&seen, &docs[i].id) {
            Some(k) => {
                proof {
                    lemma_find_first_props(seen_model, docs@[i as int].id@);
                    assert(distinct_prefix(ids, i + 1) =~= seen_model);
                }
                k
            },
            None => {
                let k = seen.len();
                proof {
                    lemma_find_first_props(seen_model, docs@[i as int].id@);
                }
                seen.push(docs[i].id.clone());
                proof {
                    assert(byte_lines(seen@) =~= seen_model.push(docs@[i as int].id@));
                    assert(distinct_prefix(ids, i + 1) =~= seen_model.push(docs@[i as int].id@));
                    lemma_find_first_scan(byte_lines(seen@), docs@[i as int].id@, k as int);
                }
                k
            },
        };
        proof {
            assert(docid_idx == assigned_id(ids, i as int));
            assert(docid_idx <= i32::MAX);
        }
        line_docids.push(docid_idx as i32);
        keys.push(be32_key(docid_idx as u32));
        proof {
            assert(byte_lines(keys@)[i as int] == be32_bytes(docid_idx as u32));
            assert(docid_keys(docs@)[i as int] == be32_bytes(
                assigned_id(ids_of(docs@), i as int) as u32,
            ));
        }

        let entries = &docs[i].entries;
        let entry_count = entries.len();
        proof {
            assert(line_postings(docs@[i as int].entries@, docid_idx as int, 0)
                =~= Seq::<Posting>::empty());
            assert(line_terms(docs@[i as int].entries@, 0) =~= Seq::<Seq<u8>>::empty());
            assert(flat@ =~= flat_entries(docs@, i as int) + line_postings(
                docs@[i as int].entries@,
                docid_idx as int,
                0,
            ));
            assert(byte_lines(flat_terms@) =~= flat_terms_of(docs@, i as int) + line_terms(
                docs@[i as int].entries@,
                0,
            ));
        }
        let mut doc_length: i32 = 0;
        let mut j: usize = 0;
        while j < entry_count
            invariant
                0 <= j <= entry_count,
                entry_count == docs@[i as int].entries@.len(),
                0 <= i < line_count,
                doc_length == kept_in_line(docs@[i as int].entries@, j as int),
                flat_terms@.len() == flat@.len(),
                flat@.len() == total + kept_in_line(docs@[i as int].entries@, j as int),
                flat@ == flat_entries(docs@, i as int) + line_postings(
                    docs@[i as int].entries@,
                    docid_idx as int,
                    j as int,
                ),
                byte_lines(flat_terms@) == flat_terms_of(docs@, i as int) + line_terms(
                    docs@[i as int].entries@,
                    j as int,
                ),
                term_list@.len() <= flat@.len(),
                docid_idx <= i32::MAX,
                docid_idx == assigned_id(ids, i as int),
                forall|k: int|
                    0 <= k < flat@.len() ==> (#[trigger] flat@[k]).tf > 0 && 0 <= flat@[k].docid,
                keys_distinct(byte_lines(term_list@)),
                keys_cover(
                    byte_lines(flat_terms@),
                    byte_lines(term_list@),
                    flat_terms@.len() as int,
                ),
            decreases entry_count - j,
        {
            let entry = &entries[j];
            if entry.tf > 0 {
                if doc_length == i32::MAX {
                    proof {
                        lemma_kept_mono(
                            docs@[i as int].entries@,
                            j + 1,
                            docs@[i as int].entries@.len() as int,
                        );
                        lemma_total_kept_line_bound(docs@, i as int);
                    }
                    return Err(ConversionError::CountOverflow);
                }
                doc_length = doc_length + 1;
                let ghost flat_model = byte_lines(flat_terms@);
                match find_line(&term_list, &entry.term) {
                    Some(found) => {
                        proof {
                            lemma_find_first_props(byte_lines(term_list@), entry.term@);
                            assert(byte_lines(term_list@)[found as int] == entry.term@);
                            assert(byte_lines(term_list@).contains(entry.term@));
                        }
                    },
                    None => {
                        proof {
                            lemma_find_first_props(byte_lines(term_list@), entry.term@);
                        }
                        let ghost term_model = byte_lines(term_list@);
                        term_list.push(entry.term.clone());
                        proof {
                            assert(byte_lines(term_list@) =~= term_model.push(entry.term@));
                            assert forall|k: int| 0 <= k < term_model.len() implies (
                            #[trigger] term_model[k]) != entry.term@ by {
                                assert(term_model.contains(term_model[k]));
                            }
                            lemma_distinct_push(term_model, entry.term@);
                            lemma_cover_grow_keys(
                                flat_model,
                                term_model,
                                entry.term@,
                                flat_model.len() as int,
                            );
                            assert(byte_lines(term_list@)[term_model.len() as int]
                                == entry.term@);
                            assert(byte_lines(term_list@).contains(entry.term@));
                        }
                    },
                }
                flat_terms.push(entry.term.clone());
                flat.push(Posting { docid: docid_idx as i32, tf: entry.tf });
                proof {
                    assert(byte_lines(flat_terms@) =~= flat_model.push(entry.term@));
                    lemma_cover_push_line(flat_model, byte_lines(term_list@), entry.term@);
                    assert(flat@ =~= flat_entries(docs@, i as int) + line_postings(
                        docs@[i as int].entries@,
                        docid_idx as int,
                        j + 1,
                    ));
                    assert(byte_lines(flat_terms@) =~= flat_terms_of(docs@, i as int)
                        + line_terms(docs@[i as int].entries@, j + 1));
                }
            } else {
                proof {
                    assert(line_postings(docs@[i as int].entries@, docid_idx as int, j + 1)
                        =~= line_postings(docs@[i as int].entries@, docid_idx as int, j as int));
                    assert(line_terms(docs@[i as int].entries@, j + 1) =~= line_terms(
                        docs@[i as int].entries@,
                        j as int,
                    ));
                }
            }
            j = j + 1;
        }
        proof {
            lemma_kept_mono(docs@[i as int].entries@, 0, entry_count as int);
            assert(flat@ =~= flat_entries(docs@, i + 1));
            assert(byte_lines(flat_terms@) =~= flat_terms_of(docs@, i + 1));
        }
        total = total + doc_length as i64;
        line_lengths.push(doc_length);
        i = i + 1;
    }

    // Document records, sorted stably by assigned identifier.
    proof {
        assert(byte_lines(keys@) =~= docid_keys(docs@));
    }
    let record_order = sort_permutation(&keys);
    let mut records: Vec<DocRecord> = Vec::new();
    let mut k: usize = 0;
    while k < line_count
        invariant
            0 <= k <= line_count,
            records@.len() == k,
            sort_perm_of(record_order@, docid_keys(docs@)),
            record_order@.len() == line_count,
            forall|p: int| 0 <= p < line_count ==> (#[trigger] record_order@[p]) < line_count,
            forall|p: int|
                0 <= p < k ==> {
                    &&& (#[trigger] records@[p]).docid == assigned_id(
                        ids_of(docs@),
                        record_order@[p] as int,
                    )
                    &&& records@[p].collection_docid@ == ids_of(docs@)[record_order@[p] as int]
                    &&& records@[p].doclength == line_length(docs@, record_order@[p] as int)
                },
        decreases line_count - k,
    {
        let line = record_order[k];
        let title = docs[line].id.clone();
        proof {
            assert(title@ =~= ids_of(docs@)[line as int]);
        }
        records.push(
            DocRecord {
                docid: line_docids[line],
                collection_docid: title,
                doclength: line_lengths[line],
            },
        );
        k = k + 1;
    }
    proof {
        assert(records_follow(records@, docs@, record_order@));
        assert forall|p: int| 0 <= p && p + 1 < records@.len() implies (
        #[trigger] records@[p]).docid <= records@[p + 1].docid by {
            let a = record_order@[p] as int;
            let b = record_order@[p + 1] as int;
            assert(entry_below(docid_keys(docs@), a, b));
            lemma_be32_order(
                assigned_id(ids_of(docs@), a) as u32,
                assigned_id(ids_of(docs@), b) as u32,
            );
        }
    }

    // Postings lists: one per distinct term, terms in sorted order, the
    // documents of each list in ascending order.
    let term_order = sort_permutation(&term_list);
    let group_count = term_list.len();
    if group_count > i32::MAX as usize {
        proof {
            lemma_total_kept_mono(docs@, i as int, docs@.len() as int);
        }
        return Err(ConversionError::CountOverflow);
    }
    // In sorted order the distinct terms still partition the flattened
    // entries: each entry is counted in exactly one output list.
    let ghost picked: Seq<Seq<u8>> = Seq::new(
        group_count as nat,
        |p: int| byte_lines(term_list@)[term_order@[p] as int],
    );
    let ghost flat_model = byte_lines(flat_terms@);
    proof {
        assert forall|k1: int, k2: int|
            #![trigger picked[k1], picked[k2]]
            0 <= k1 < k2 < picked.len() implies picked[k1] != picked[k2] by {
            let a = term_order@[k1] as int;
            let b = term_order@[k2] as int;
            assert(entry_below(byte_lines(term_list@), a, b));
            if picked[k1] == picked[k2] {
                lemma_lex_irrefl(byte_lines(term_list@)[a]);
                assert(a < b);
                assert(byte_lines(term_list@)[a] != byte_lines(term_list@)[b]);
            }
        }
        assert(keys_distinct(picked));
        lemma_cover_translate(
            flat_model,
            byte_lines(term_list@),
            picked,
            term_order@,
            flat_model.len() as int,
        );
    }
    let mut lists: Vec<PostingsList> = Vec::new();
    let mut g: usize = 0;
    while g < group_count
        invariant
            0 <= g <= group_count,
            lists@.len() == g,
            group_count == term_list@.len(),
            sort_perm_of(term_order@, byte_lines(term_list@)),
            term_order@.len() == group_count,
            forall|p: int| 0 <= p < group_count ==> (#[trigger] term_order@[p]) < group_count,
            total == total_kept(docs@, docs@.len() as int),
            flat_terms@.len() == flat@.len(),
            flat@.len() == total,
            forall|p: int|
                0 <= p < flat@.len() ==> (#[trigger] flat@[p]).tf > 0 && 0 <= flat@[p].docid,
            keys_distinct(byte_lines(term_list@)),
            forall|p: int|
                0 <= p < g ==> (#[trigger] lists@[p]).term@ == byte_lines(term_list@)[term_order@[p] as int],
            forall|p: int| 0 <= p < g ==> posting_list_ok(&(#[trigger] lists@[p])),
            forall|p: int| 0 <= p < g ==> wf_output_list(#[trigger] lists@[p]),
            df_total(lists@, g as int) == sum_counts(flat_model, picked, g as int),
            forall|p: int|
                0 <= p < g ==> list_collects(
                    #[trigger] lists@[p],
                    matching(flat@, flat_model, lists@[p].term@, flat@.len() as int),
                ),
        decreases group_count - g,
    {
        let term = &term_list[term_order[g]];
        proof {
            assert(term@ == picked[g as int]);
        }

        // Collect this term's postings in line order.
        let mut group: Vec<Posting> = Vec::new();
        let flat_count = flat.len();
        let mut f: usize = 0;
        while f < flat_count
            invariant
                0 <= f <= flat_count,
                flat_count == flat@.len(),
                flat_terms@.len() == flat@.len(),
                group@.len() <= f,
                group@.len() == count_prefix(flat_model, picked[g as int], f as int),
                group@ == matching(flat@, flat_model, picked[g as int], f as int),
                forall|p: int|
                    0 <= p < flat@.len() ==> (#[trigger] flat@[p]).tf > 0 && 0 <= flat@[p].docid,
                forall|p: int|
                    0 <= p < group@.len() ==> (#[trigger] group@[p]).tf > 0 && 0 <= group@[p].docid,
            decreases flat_count - f,
        {
            proof {
                assert(flat_model[f as int] == byte_lines(flat_terms@)[f as int]);
            }
            if bytes_equal(&flat_terms[f], term) {
                group.push(flat[f]);
                proof {
                    assert(group@ =~= matching(flat@, flat_model, picked[g as int], f + 1));
                }
            } else {
                proof {
                    assert(matching(flat@, flat_model, picked[g as int], f + 1) =~= matching(
                        flat@,
                        flat_model,
                        picked[g as int],
                        f as int,
                    ));
                }
            }
            f = f + 1;
        }
        if group.len() > u32::MAX as usize {
            proof {
                assert(total >= group@.len());
            }
            return Err(ConversionError::CountOverflow);
        }

        // Order the postings by document identifier, stably.
        let mut group_keys: Vec<Vec<u8>> = Vec::new();
        let group_len = group.len();
        let mut q: usize = 0;
        while q < group_len
            invariant
                0 <= q <= group_len,
                group_len == group@.len(),
                group_keys@.len() == q,
                forall|p: int|
                    0 <= p < group@.len() ==> (#[trigger] group@[p]).tf > 0 && 0 <= group@[p].docid,
                forall|p: int|
                    0 <= p < q ==> (#[trigger] group_keys@[p])@ == be32_bytes(
                        group@[p].docid as u32,
                    ),
            decreases group_len - q,
        {
            group_keys.push(be32_key(group[q].docid as u32));
            q = q + 1;
        }
        let group_order = sort_permutation(&group_keys);
        proof {
            assert(byte_lines(group_keys@) =~= Seq::new(
                group@.len(),
                |p: int| be32_bytes(group@[p].docid as u32),
            ));
        }

        // Delta-code the ordered postings.
        let mut postings: Vec<Posting> = Vec::new();
        let mut cf: i64 = 0;
        let mut last_doc: i32 = 0;
        let mut w: usize = 0;
        while w < group_len
            invariant
                0 <= w <= group_len,
                group_len == group@.len(),
                group_len <= u32::MAX,
                postings@.len() == w,
                sort_perm_of(group_order@, byte_lines(group_keys@)),
                group_order@.len() == group_len,
                forall|p: int| 0 <= p < group_len ==> (#[trigger] group_order@[p]) < group_len,
                byte_lines(group_keys@) == Seq::new(
                    group@.len(),
                    |p: int| be32_bytes(group@[p].docid as u32),
                ),
                forall|p: int|
                    0 <= p < group@.len() ==> (#[trigger] group@[p]).tf > 0 && 0 <= group@[p].docid,
                last_doc == if w == 0 {
                    0int
                } else {
                    group@[group_order@[w - 1] as int].docid as int
                },
                last_doc >= 0,
                delta_sum(postings@, w as int) == last_doc,
                cf == tf_sum(postings@, w as int),
                cf <= w * 0x7fff_ffff,
                forall|p: int|
                    0 <= p < w ==> (#[trigger] postings@[p]).tf > 0 && postings@[p].docid >= 0,
                forall|p: int| 1 <= p <= w ==> delta_sum(postings@, p) <= i32::MAX,
                forall|p: int|
                    1 <= p <= w ==> delta_sum(postings@, p) == group@[group_order@[p - 1] as int].docid,
                forall|p: int|
                    0 <= p < w ==> (#[trigger] postings@[p]).tf == group@[group_order@[p] as int].tf,
            decreases group_len - w,
        {
            let chosen = group[group_order[w]];
            proof {
                if w > 0 {
                    assert(entry_below(
                        byte_lines(group_keys@),
                        group_order@[w - 1] as int,
                        group_order@[w as int] as int,
                    ));
                    lemma_be32_order(
                        group@[group_order@[w - 1] as int].docid as u32,
                        chosen.docid as u32,
                    );
                }
            }
            let delta = chosen.docid - last_doc;
            let ghost before = postings@;
            postings.push(Posting { docid: delta, tf: chosen.tf });
            proof {
                lemma_delta_sum_push(before, Posting { docid: delta, tf: chosen.tf }, w as int);
                lemma_tf_sum_push(before, Posting { docid: delta, tf: chosen.tf }, w as int);
                assert(postings@[w as int].docid == delta);
                assert(delta_sum(postings@, w + 1) == delta_sum(postings@, w as int) + delta);
                assert(delta_sum(postings@, w + 1) == chosen.docid);
                assert forall|p: int| 1 <= p <= w + 1 implies delta_sum(postings@, p)
                    <= i32::MAX && delta_sum(postings@, p) == group@[group_order@[p - 1] as int].docid by {
                    if p <= w {
                        lemma_delta_sum_push(
                            before,
                            Posting { docid: delta, tf: chosen.tf },
                            p,
                        );
                    }
                }
            }
            cf = cf + chosen.tf as i64;
            last_doc = chosen.docid;
            w = w + 1;
        }
        let list = PostingsList {
            term: term.clone(),
            df: group_len as i64,
            cf,
            postings,
        };
        proof {
            assert(list.term@ =~= byte_lines(term_list@)[term_order@[g as int] as int]);
            assert(posting_list_ok(&list));
            assert(wf_output_list(list));
        }
        let ghost lists_before = lists@;
        lists.push(list);
        proof {
            lemma_df_total_push(lists_before, lists@[g as int], g as int);
            assert(lists@ =~= lists_before.push(lists@[g as int]));
            assert(df_total(lists@, g + 1) == df_total(lists@, g as int) + group_len);
            assert(sum_counts(flat_model, picked, g + 1) == sum_counts(flat_model, picked, g as int)
                + count_prefix(flat_model, picked[g as int], flat_model.len() as int));
            let mg = matching(flat@, flat_model, lists@[g as int].term@, flat@.len() as int);
            assert(mg == group@);
            assert(byte_lines(group_keys@) =~= posting_docid_keys(group@));
            assert(sort_perm_of(group_order@, posting_docid_keys(mg)));
            assert(collect_follows(lists@[g as int], mg, group_order@));
            assert(list_collects(lists@[g as int], mg));
        }
        g = g + 1;
    }
    proof {
        assert forall|p: int| 0 <= p && p + 1 < lists@.len() implies lex_lt(
            (#[trigger] lists@[p]).term@,
            lists@[p + 1].term@,
        ) by {
            let a = term_order@[p] as int;
            let b = term_order@[p + 1] as int;
            assert(entry_below(byte_lines(term_list@), a, b));
            if !lex_lt(byte_lines(term_list@)[a], byte_lines(term_list@)[b]) {
                assert(byte_lines(term_list@)[a] == byte_lines(term_list@)[b]);
                assert(a != b);
                assert(term_list@[a]@ != term_list@[b]@);
            }
        }
    }

    proof {
        lemma_partition_count(flat_model, picked);
        assert(df_total(lists@, lists@.len() as int) == total_kept(docs@, docs@.len() as int));
        assert(flat@ == flat_entries(docs@, docs@.len() as int));
        assert(flat_model == flat_terms_of(docs@, docs@.len() as int));
        assert(flat@.len() == total_kept(docs@, docs@.len() as int));
    }

    let header = CiffHeader {
        version: 1,
        num_postings_lists: group_count as i32,
        total_postings_lists: group_count as i32,
        num_docs: line_count as i32,
        total_docs: line_count as i32,
        total_terms_in_collection: total,
        description: vstd::slice::slice_to_vec(description.as_slice()),
    };
    Ok((header, lists, records))
}

/// A prefix of the delta sums is unchanged by a push at the back.
proof fn lemma_delta_sum_push(ps: Seq<Posting>, x: Posting, k: int)
    requires
        0 <= k <= ps.len(),
    ensures
        delta_sum(ps.push(x), k) == delta_sum(ps, k),
    decreases k,
{
    if k > 0 {
        lemma_delta_sum_push(ps, x, k - 1);
        assert(ps.push(x)[k - 1] == ps[k - 1]);
    }
}

/// A prefix of the frequency sums is unchanged by a push at the back.
proof fn lemma_tf_sum_push(ps: Seq<Posting>, x: Posting, k: int)
    requires
        0 <= k <= ps.len(),
    ensures
        tf_sum(ps.push(x), k) == tf_sum(ps, k),
    decreases k,
{
    if k > 0 {
        lemma_tf_sum_push(ps, x, k - 1);
        assert(ps.push(x)[k - 1] == ps[k - 1]);
    }
}

} // verus!
