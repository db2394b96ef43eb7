//! The two conversion pipelines over in-memory values: CIFF records to the
//! flat PISA streams, and the PISA streams back to CIFF records. Callers
//! read and write the actual files and the message framing; everything
//! between the byte buffers is decided here.
use vstd::prelude::*;

verus! {

use crate::binary_collection::BinarySequence;
use crate::binary_collection::InvalidFormat;
use crate::binary_collection::RandomAccessBinaryCollection;
use crate::binary_collection::head_elems;
use crate::binary_collection::head_len;
use crate::binary_collection::head_ok;
use crate::binary_collection::parses_fully;
use crate::binary_collection::sequences_of;
use crate::binary_collection::encode_u32_sequence;
use crate::binary_collection::encoded_collection;
use crate::binary_collection::encoded_sequence;
use crate::binary_collection::picked;
use crate::binary_collection::reorder;
use crate::records::CiffHeader;
use crate::records::Header;
use crate::records::ConversionError;
use crate::records::DocRecord;
use crate::records::Posting;
use crate::records::PostingsList;
use crate::reorder::apply_permutation;
use crate::reorder::lemma_sort_permutation_restores_order;
use crate::reorder::order_keeping_first;
use crate::reorder::picked_lines;
use crate::reorder::sort_perm_of;
use crate::reorder::sort_permutation;
use crate::translate::absolute_docids;
use crate::translate::byte_lines;
use crate::translate::check_lines_sorted;
use crate::translate::doc_records_ok;
use crate::translate::delta_sum;
use crate::translate::doclengths_of;
use crate::translate::encode_doc_records;
use crate::translate::frequencies_of;
use crate::translate::lines_sorted;
use crate::translate::posting_list_ok;
use crate::translate::sizes;
use crate::translate::titles_of;
use crate::translate::write_posting_list;

/// The smaller of two lengths.
pub open spec fn min2(a: int, b: int) -> int {
    if a <= b {
        a
    } else {
        b
    }
}

/// Sum of the first `k` elements.
pub open spec fn sum_u32(es: Seq<u32>, k: int) -> int
    decreases k,
{
    if k <= 0 {
        0
    } else {
        sum_u32(es, k - 1) + es[k - 1]
    }
}

/// Whether every element that the pairing of a document sequence and a
/// frequency sequence reads fits the signed 32-bit wire fields.
pub open spec fn pair_fits(d: Seq<u32>, f: Seq<u32>) -> bool {
    forall|j: int|
        0 <= j < min2(d.len() as int, f.len() as int) ==> #[trigger] d[j] <= i32::MAX && f[j]
            <= i32::MAX
}

/// Whether `pl` is the postings list that pairing the document sequence
/// `d` with the frequency sequence `f` under the term `t` yields: one
/// posting per paired element, the document identifiers re-derived as
/// consecutive differences (the first is kept absolute), the document
/// frequency the pair count, the collection frequency the sum of the
/// paired frequencies.
pub open spec fn list_decodes(pl: PostingsList, d: Seq<u32>, f: Seq<u32>, t: Seq<u8>) -> bool {
    let m = min2(d.len() as int, f.len() as int);
    &&& pl.term@ == t
    &&& pl.df == m
    &&& pl.cf == sum_u32(f, m)
    &&& pl.postings@.len() == m
    &&& forall|j: int|
        0 <= j < m ==> (#[trigger] pl.postings@[j]).tf == f[j] && pl.postings@[j].docid == d[j]
            - (if j == 0 {
            0
        } else {
            d[j - 1] as int
        })
}

/// Whether the first `k` postings lists all decode, position by
/// position, from the document sequences (offset one past the leading
/// count singleton), the frequency sequences and the term lines, with
/// every paired element in signed 32-bit range.
pub open spec fn lists_decode_prefix(
    lists: Seq<PostingsList>,
    ds: Seq<Seq<u32>>,
    fs: Seq<Seq<u32>>,
    ts: Seq<Seq<u8>>,
    k: int,
) -> bool
    decreases k,
{
    k <= 0 || {
        &&& lists_decode_prefix(lists, ds, fs, ts, k - 1)
        &&& pair_fits(ds[k], fs[k - 1])
        &&& list_decodes(lists[k - 1], ds[k], fs[k - 1], ts[k - 1])
    }
}

/// A decoded prefix is untouched by appending one more list.
proof fn lemma_lists_decode_prefix_push(
    previous: Seq<PostingsList>,
    appended: PostingsList,
    ds: Seq<Seq<u32>>,
    fs: Seq<Seq<u32>>,
    ts: Seq<Seq<u8>>,
    k: int,
)
    requires
        0 <= k <= previous.len(),
        lists_decode_prefix(previous, ds, fs, ts, k),
    ensures
        lists_decode_prefix(previous.push(appended), ds, fs, ts, k),
    decreases k,
{
    if k > 0 {
        lemma_lists_decode_prefix_push(previous, appended, ds, fs, ts, k - 1);
        assert(previous.push(appended)[k - 1] == previous[k - 1]);
    }
}

/// Every position below a decoded prefix decodes.
pub proof fn lemma_lists_decode_prefix_index(
    lists: Seq<PostingsList>,
    ds: Seq<Seq<u32>>,
    fs: Seq<Seq<u32>>,
    ts: Seq<Seq<u8>>,
    k: int,
    j: int,
)
    requires
        lists_decode_prefix(lists, ds, fs, ts, k),
        0 <= j < k,
    ensures
        pair_fits(ds[j + 1], fs[j]),
        list_decodes(lists[j], ds[j + 1], fs[j], ts[j]),
    decreases k,
{
    if j < k - 1 {
        lemma_lists_decode_prefix_index(lists, ds, fs, ts, k - 1, j);
    }
}

/// Re-derives the postings lists from the flat streams: pairs the
/// document sequences after the leading count singleton with the
/// frequency sequences and the term lines, position by position, as far
/// as all three reach.
#[verifier::loop_isolation(false)]
#[verifier::rlimit(60)]
pub fn build_postings_lists(
    documents_bytes: &[u8],
    frequencies_bytes: &[u8],
    terms: &Vec<Vec<u8>>,
) -> (r: Result<Vec<PostingsList>, ConversionError>)
    ensures
        match r {
            Ok(lists) => {
                &&& documents_bytes@.len() % 4 == 0
                &&& parses_fully(documents_bytes@)
                &&& sequences_of(documents_bytes@).len() >= 1
                &&& frequencies_bytes@.len() % 4 == 0
                &&& parses_fully(frequencies_bytes@)
                &&& {
                    let ds = sequences_of(documents_bytes@);
                    let fs = sequences_of(frequencies_bytes@);
                    let n = min2(
                        min2(ds.len() - 1, fs.len() as int),
                        terms@.len() as int,
                    );
                    &&& lists@.len() == n
                    &&& lists_decode_prefix(lists@, ds, fs, byte_lines(terms@), n)
                }
            },
            Err(e) => match e {
                ConversionError::Format(_) => !(documents_bytes@.len() % 4 == 0 && parses_fully(
                    documents_bytes@,
                ) && sequences_of(documents_bytes@).len() >= 1 && frequencies_bytes@.len() % 4 == 0
                    && parses_fully(frequencies_bytes@)),
                ConversionError::CountOverflow => exists|i: int|
                    0 <= i < min2(
                        min2(
                            sequences_of(documents_bytes@).len() - 1,
                            sequences_of(frequencies_bytes@).len() as int,
                        ),
                        terms@.len() as int,
                    ) && !pair_fits(
                        #[trigger] sequences_of(documents_bytes@)[i + 1],
                        sequences_of(frequencies_bytes@)[i],
                    ),
                _ => false,
            },
        },
{
    let documents = match RandomAccessBinaryCollection::try_from(documents_bytes) {
        Ok(c) => c,
        Err(e) => {
            return Err(ConversionError::Format(e));
        },
    };
    let frequencies = match RandomAccessBinaryCollection::try_from(frequencies_bytes) {
        Ok(c) => c,
        Err(e) => {
            return Err(ConversionError::Format(e));
        },
    };
    if documents.len() == 0 {
        return Err(ConversionError::Format(InvalidFormat::new("Unable to read document count")));
    }
    let mut n = documents.len() - 1;
    if frequencies.len() < n {
        n = frequencies.len();
    }
    if terms.len() < n {
        n = terms.len();
    }
    let ghost ds = sequences_of(documents_bytes@);
    let ghost fs = sequences_of(frequencies_bytes@);
    proof {
        crate::binary_collection::lemma_parsed_lengths(documents_bytes@);
        crate::binary_collection::lemma_parsed_lengths(frequencies_bytes@);
    }
    let mut lists: Vec<PostingsList> = Vec::new();
    let mut i: usize = 0;
    while i < n
        invariant
            documents.wf(),
            frequencies.wf(),
            documents@ == ds,
            frequencies@ == fs,
            n == min2(min2(ds.len() - 1, fs.len() as int), terms@.len() as int),
            0 <= i <= n,
            lists@.len() == i,
            forall|k: int|
                0 <= k < ds.len() ==> (#[trigger] ds[k]).len() <= u32::MAX,
            forall|k: int|
                0 <= k < fs.len() ==> (#[trigger] fs[k]).len() <= u32::MAX,
            lists_decode_prefix(lists@, ds, fs, byte_lines(terms@), i as int),
        decreases n - i,
    {
        let d = documents.at(i + 1);
        let f = frequencies.at(i);
        let m = if d.len() <= f.len() {
            d.len()
        } else {
            f.len()
        };
        let mut postings: Vec<Posting> = Vec::new();
        let mut cf: i64 = 0;
        let mut last_doc: i32 = 0;
        let mut j: usize = 0;
        while j < m
            invariant
                d.wf(),
                f.wf(),
                d@ == ds[i + 1],
                f@ == fs[i as int],
                0 <= i < n,
                i + 1 < ds.len(),
                i < fs.len(),
                m == min2(d@.len() as int, f@.len() as int),
                m < 0x1_0000_0000,
                0 <= j <= m,
                postings@.len() == j,
                cf == sum_u32(f@, j as int),
                cf <= j * 0x7fff_ffff,
                last_doc == if j == 0 {
                    0
                } else {
                    d@[j - 1] as int
                },
                forall|k: int| 0 <= k < j ==> #[trigger] d@[k] <= i32::MAX && f@[k] <= i32::MAX,
                forall|k: int|
                    0 <= k < j ==> (#[trigger] postings@[k]).tf == f@[k] && postings@[k].docid
                        == d@[k] - (if k == 0 {
                        0
                    } else {
                        d@[k - 1] as int
                    }),
            decreases m - j,
        {
            let docid = match d.get(j) {
                Some(v) => v,
                None => {
                    proof {
                        assert(false);
                    }
                    0
                },
            };
            let frequency = match f.get(j) {
                Some(v) => v,
                None => {
                    proof {
                        assert(false);
                    }
                    0
                },
            };
            if docid > i32::MAX as u32 || frequency > i32::MAX as u32 {
                proof {
                    let dd = ds[i + 1];
                    let ff = fs[i as int];
                    assert(dd == d@ && ff == f@);
                    assert(dd[j as int] > i32::MAX || ff[j as int] > i32::MAX);
                    if pair_fits(dd, ff) {
                        assert(dd[j as int] <= i32::MAX && ff[j as int] <= i32::MAX);
                    }
                    assert(!pair_fits(
                        sequences_of(documents_bytes@)[i as int + 1],
                        sequences_of(frequencies_bytes@)[i as int],
                    ));
                }
                return Err(ConversionError::CountOverflow);
            }
            postings.push(Posting { docid: docid as i32 - last_doc, tf: frequency as i32 });
            cf = cf + frequency as i64;
            last_doc = docid as i32;
            proof {
                assert(d@[j as int] <= i32::MAX && f@[j as int] <= i32::MAX);
            }
            j = j + 1;
        }
        proof {
            assert forall|jj: int|
                0 <= jj < min2(
                    ds[i + 1].len() as int,
                    fs[i as int].len() as int,
                ) implies #[trigger] ds[i + 1][jj] <= i32::MAX && fs[i as int][jj]
                <= i32::MAX by {
                assert(d@[jj] <= i32::MAX && f@[jj] <= i32::MAX);
            }
            assert(pair_fits(ds[i + 1], fs[i as int]));
        }
        let term = terms[i].clone();
        proof {
            assert(term@ =~= byte_lines(terms@)[i as int]);
        }
        let ghost previous = lists@;
        lists.push(PostingsList { term, df: m as i64, cf, postings });
        proof {
            assert(list_decodes(
                lists@[i as int],
                ds[i + 1],
                fs[i as int],
                byte_lines(terms@)[i as int],
            ));
            lemma_lists_decode_prefix_push(
                previous,
                lists@[i as int],
                ds,
                fs,
                byte_lines(terms@),
                i as int,
            );
            assert(lists@ =~= previous.push(lists@[i as int]));
            assert(lists_decode_prefix(lists@, ds, fs, byte_lines(terms@), i + 1));
        }
        i = i + 1;
    }
    Ok(lists)
}

/// The document stream that the first `k` postings lists encode, without
/// the leading count singleton: per list, the absolute identifiers under
/// the declared document frequency as length prefix.
pub open spec fn docs_body(lists: Seq<PostingsList>, k: int) -> Seq<u8>
    decreases k,
{
    if k <= 0 {
        Seq::empty()
    } else {
        docs_body(lists, k - 1) + encoded_sequence(
            lists[k - 1].df as u32,
            absolute_docids(lists[k - 1].postings@),
        )
    }
}

/// The frequency stream that the first `k` postings lists encode.
pub open spec fn freqs_body(lists: Seq<PostingsList>, k: int) -> Seq<u8>
    decreases k,
{
    if k <= 0 {
        Seq::empty()
    } else {
        freqs_body(lists, k - 1) + encoded_sequence(
            lists[k - 1].df as u32,
            frequencies_of(lists[k - 1].postings@),
        )
    }
}

/// The term of each postings list, in stream order.
pub open spec fn terms_of_lists(lists: Seq<PostingsList>) -> Seq<Seq<u8>> {
    Seq::new(lists.len(), |i: int| lists[i].term@)
}

/// Whether every postings list can be written to the flat layout.
pub open spec fn all_lists_ok(lists: Seq<PostingsList>) -> bool {
    forall|i: int| 0 <= i < lists.len() ==> posting_list_ok(&(#[trigger] lists[i]))
}

/// The order that moves sequence `perm[i] + 1` to position `i + 1` and
/// keeps position `0` fixed: how a term permutation acts on a document
/// stream whose first sequence is the count singleton.
pub open spec fn shift_order(perm: Seq<usize>) -> Seq<usize> {
    seq![0usize] + Seq::new(perm.len(), |i: int| (perm[i] + 1) as usize)
}

/// A complete PISA collection, as the bytes of its three binary streams
/// and the lines of its two text files.
pub struct PisaCollection {
    /// The `.docs` stream: the document-count singleton, then one sequence
    /// of absolute document identifiers per term.
    pub documents: Vec<u8>,
    /// The `.freqs` stream: one sequence of term frequencies per term.
    pub frequencies: Vec<u8>,
    /// The `.sizes` stream: one sequence of all document lengths.
    pub sizes: Vec<u8>,
    /// The `.terms` lines.
    pub terms: Vec<Vec<u8>>,
    /// The `.documents` lines: the external document identifiers.
    pub titles: Vec<Vec<u8>>,
}

/// Converts a CIFF record stream to a PISA collection: expands the docid
/// deltas of each postings list, pairs document lengths with titles under
/// the dense-identifier check, and, when the terms do not arrive in
/// lexicographic order, rewrites the postings streams and the term lines
/// in sorted-term order. The terms of the result are always sorted.
#[verifier::loop_isolation(false)]
pub fn ciff_to_pisa_collection(
    header: &Header,
    lists: &Vec<PostingsList>,
    records: &Vec<DocRecord>,
) -> (r: Result<PisaCollection, ConversionError>)
    requires
        lists@.len() == header.num_postings_lists,
        records@.len() == header.num_documents,
    ensures
        match r {
            Ok(out) => {
                &&& all_lists_ok(lists@)
                &&& doc_records_ok(records@)
                &&& out.sizes@ == encoded_sequence(records@.len() as u32, doclengths_of(records@))
                &&& byte_lines(out.titles@) == titles_of(records@)
                &&& lines_sorted(byte_lines(out.terms@))
                &&& if lines_sorted(terms_of_lists(lists@)) {
                    &&& out.documents@ == encoded_sequence(1, seq![header.num_documents])
                        + docs_body(lists@, lists@.len() as int)
                    &&& out.frequencies@ == freqs_body(lists@, lists@.len() as int)
                    &&& byte_lines(out.terms@) == terms_of_lists(lists@)
                } else {
                    exists|perm: Seq<usize>|
                        {
                            &&& #[trigger] sort_perm_of(perm, terms_of_lists(lists@))
                            &&& byte_lines(out.terms@) == picked_lines(
                                terms_of_lists(lists@),
                                perm,
                            )
                            &&& out.documents@ == encoded_collection(
                                picked(
                                    sequences_of(
                                        encoded_sequence(1, seq![header.num_documents])
                                            + docs_body(lists@, lists@.len() as int),
                                    ),
                                    shift_order(perm),
                                ),
                            )
                            &&& out.frequencies@ == encoded_collection(
                                picked(
                                    sequences_of(freqs_body(lists@, lists@.len() as int)),
                                    perm,
                                ),
                            )
                        }
                }
            },
            Err(e) => match e {
                ConversionError::CountOverflow => !all_lists_ok(lists@) || !(records@.len()
                    <= u32::MAX && doc_records_ok(records@)),
                ConversionError::OrderingViolation => exists|i: int|
                    0 <= i < records@.len() && (#[trigger] records@[i]).docid != i,
                ConversionError::Format(_) => !lines_sorted(terms_of_lists(lists@)),
                _ => false,
            },
        },
{
    let mut documents: Vec<u8> = Vec::new();
    let count_elems: Vec<u32> = vec![header.num_documents];
    proof {
        assert(count_elems@ =~= seq![header.num_documents]);
    }
    encode_u32_sequence(&mut documents, 1, count_elems.as_slice());
    let ghost docs_head = documents@;
    let mut frequencies: Vec<u8> = Vec::new();
    let mut terms: Vec<Vec<u8>> = Vec::new();
    let n = lists.len();
    let mut i: usize = 0;
    while i < n
        invariant
            0 <= i <= n,
            documents@ == docs_head + docs_body(lists@, i as int),
            frequencies@ == freqs_body(lists@, i as int),
            byte_lines(terms@) == terms_of_lists(lists@).take(i as int),
            forall|k: int| 0 <= k < i ==> posting_list_ok(&(#[trigger] lists@[k])),
        decreases n - i,
    {
        match write_posting_list(&lists[i], &mut documents, &mut frequencies, &mut terms) {
            Ok(()) => {},
            Err(e) => {
                proof {
                    assert(!posting_list_ok(&lists@[i as int]));
                }
                return Err(e);
            },
        }
        proof {
            assert(terms_of_lists(lists@).take(i as int + 1) =~= terms_of_lists(lists@).take(
                i as int,
            ).push(lists@[i as int].term@));
        }
        i = i + 1;
    }
    let (doc_sizes, titles) = match encode_doc_records(records) {
        Ok(p) => p,
        Err(e) => {
            return Err(e);
        },
    };
    proof {
        assert(byte_lines(terms@) =~= terms_of_lists(lists@));
    }
    if check_lines_sorted(&terms) {
        return Ok(
            PisaCollection { documents, frequencies, sizes: doc_sizes, terms, titles },
        );
    }
    let perm = sort_permutation(&terms);
    let order_docs = order_keeping_first(&perm);
    let documents_coll = match RandomAccessBinaryCollection::try_from(documents.as_slice()) {
        Ok(c) => c,
        Err(e) => {
            return Err(ConversionError::Format(e));
        },
    };
    if !order_within(&order_docs, documents_coll.len()) {
        return Err(
            ConversionError::Format(
                InvalidFormat::new("postings sequences do not align with the term count"),
            ),
        );
    }
    let frequencies_coll = match RandomAccessBinaryCollection::try_from(frequencies.as_slice()) {
        Ok(c) => c,
        Err(e) => {
            return Err(ConversionError::Format(e));
        },
    };
    if !order_within(&perm, frequencies_coll.len()) {
        return Err(
            ConversionError::Format(
                InvalidFormat::new("postings sequences do not align with the term count"),
            ),
        );
    }
    let mut new_documents: Vec<u8> = Vec::new();
    reorder(&documents_coll, &order_docs, &mut new_documents);
    let mut new_frequencies: Vec<u8> = Vec::new();
    reorder(&frequencies_coll, &perm, &mut new_frequencies);
    let new_terms = apply_permutation(&terms, &perm);
    proof {
        lemma_sort_permutation_restores_order(perm@, byte_lines(terms@));
        assert(order_docs@ =~= shift_order(perm@));
        assert(new_documents@ =~= encoded_collection(
            picked(sequences_of(documents@), shift_order(perm@)),
        ));
    }
    Ok(
        PisaCollection {
            documents: new_documents,
            frequencies: new_frequencies,
            sizes: doc_sizes,
            terms: new_terms,
            titles,
        },
    )
}

/// Encoding a collection distributes over concatenation.
proof fn lemma_encoded_collection_concat(a: Seq<Seq<u32>>, b: Seq<Seq<u32>>)
    ensures
        encoded_collection(a + b) == encoded_collection(a) + encoded_collection(b),
    decreases a.len(),
{
    if a.len() == 0 {
        assert(a + b =~= b);
        assert(encoded_collection(a) =~= Seq::<u8>::empty());
        assert(encoded_collection(a) + encoded_collection(b) =~= encoded_collection(b));
    } else {
        lemma_encoded_collection_concat(a.drop_first(), b);
        assert((a + b).first() == a.first());
        assert((a + b).drop_first() =~= a.drop_first() + b);
        assert(encoded_collection(a + b) =~= encoded_collection(a) + encoded_collection(b));
    }
}

/// The absolute document identifiers of each of the first `k` lists.
pub open spec fn absolute_docid_rows(lists: Seq<PostingsList>) -> Seq<Seq<u32>> {
    Seq::new(lists.len(), |i: int| absolute_docids(lists[i].postings@))
}

/// The frequencies of each of the first `k` lists.
pub open spec fn frequency_rows(lists: Seq<PostingsList>) -> Seq<Seq<u32>> {
    Seq::new(lists.len(), |i: int| frequencies_of(lists[i].postings@))
}

/// Whether every prefix sum of a list's stored deltas stays within the
/// signed 32-bit range — every absolute identifier is representable.
pub open spec fn docids_fit(pl: PostingsList) -> bool {
    forall|k: int| 1 <= k <= pl.postings@.len() ==> delta_sum(pl.postings@, k) <= i32::MAX
}

/// When each declared document frequency equals its posting count, the
/// document stream body is exactly the encoded collection of the
/// absolute-identifier rows; likewise for the frequency stream.
proof fn lemma_bodies_are_collections(lists: Seq<PostingsList>, k: int)
    requires
        0 <= k <= lists.len(),
        forall|i: int|
            0 <= i < lists.len() ==> (#[trigger] lists[i]).df == lists[i].postings@.len(),
    ensures
        docs_body(lists, k) == encoded_collection(absolute_docid_rows(lists).take(k)),
        freqs_body(lists, k) == encoded_collection(frequency_rows(lists).take(k)),
    decreases k,
{
    if k == 0 {
        assert(absolute_docid_rows(lists).take(0) =~= Seq::<Seq<u32>>::empty());
        assert(frequency_rows(lists).take(0) =~= Seq::<Seq<u32>>::empty());
    } else {
        lemma_bodies_are_collections(lists, k - 1);
        let drow = absolute_docids(lists[k - 1].postings@);
        let frow = frequencies_of(lists[k - 1].postings@);
        crate::binary_collection::lemma_encoded_collection_push(
            absolute_docid_rows(lists).take(k - 1),
            drow,
        );
        crate::binary_collection::lemma_encoded_collection_push(
            frequency_rows(lists).take(k - 1),
            frow,
        );
        assert(absolute_docid_rows(lists).take(k) =~= absolute_docid_rows(lists).take(k - 1).push(
            drow,
        ));
        assert(frequency_rows(lists).take(k) =~= frequency_rows(lists).take(k - 1).push(frow));
        assert(lists[k - 1].df as u32 == drow.len() as u32);
    }
}

/// Two posting rows with equal deltas have equal prefix sums.
proof fn lemma_delta_sum_pointwise(a: Seq<Posting>, b: Seq<Posting>, k: int)
    requires
        forall|j: int| 0 <= j < k ==> (#[trigger] a[j]).docid == b[j].docid,
    ensures
        delta_sum(a, k) == delta_sum(b, k),
    decreases k,
{
    if k > 0 {
        lemma_delta_sum_pointwise(a, b, k - 1);
    }
}

/// Lists whose declared frequencies, identifier rows and frequency rows
/// agree encode the same stream bodies.
proof fn lemma_bodies_pointwise(a: Seq<PostingsList>, b: Seq<PostingsList>, k: int)
    requires
        0 <= k <= a.len(),
        k <= b.len(),
        forall|i: int|
            0 <= i < k ==> (#[trigger] a[i]).df == b[i].df && absolute_docids(a[i].postings@)
                == absolute_docids(b[i].postings@) && frequencies_of(a[i].postings@)
                == frequencies_of(b[i].postings@),
    ensures
        docs_body(a, k) == docs_body(b, k),
        freqs_body(a, k) == freqs_body(b, k),
    decreases k,
{
    if k > 0 {
        lemma_bodies_pointwise(a, b, k - 1);
    }
}

/// Idempotence of the conversion cycle on already-sorted-term input: take
/// a valid CIFF stream whose terms are sorted, convert it to a PISA
/// collection, decode that collection back to CIFF records as
/// [`build_postings_lists`], [`sizes`]/[`build_doc_records`] and
/// [`compute_header`] describe, and convert the decoded records to PISA
/// again: the second collection's document, frequency, sizes, terms and
/// titles outputs are identical — byte for byte, line for line — to the
/// first. The hypotheses on `lists2` and `records2` are exactly the
/// contracts of the decoding functions; the conclusion feeds
/// [`ciff_to_pisa_collection`]'s contract, whose sorted branch then
/// reproduces the first collection's bytes.
#[verifier::spinoff_prover]
#[verifier::rlimit(100)]
pub proof fn lemma_pisa_ciff_pisa_identity(
    num_documents: u32,
    lists1: Seq<PostingsList>,
    records1: Seq<DocRecord>,
    lists2: Seq<PostingsList>,
    records2: Seq<DocRecord>,
)
    requires
        all_lists_ok(lists1),
        forall|i: int|
            0 <= i < lists1.len() ==> (#[trigger] lists1[i]).df == lists1[i].postings@.len(),
        forall|i: int| 0 <= i < lists1.len() ==> docids_fit(#[trigger] lists1[i]),
        lines_sorted(terms_of_lists(lists1)),
        doc_records_ok(records1),
        records1.len() <= u32::MAX,
        lists2.len() == min2(
            min2(
                sequences_of(
                    encoded_sequence(1, seq![num_documents]) + docs_body(
                        lists1,
                        lists1.len() as int,
                    ),
                ).len() - 1,
                sequences_of(freqs_body(lists1, lists1.len() as int)).len() as int,
            ),
            terms_of_lists(lists1).len() as int,
        ),
        lists_decode_prefix(
            lists2,
            sequences_of(
                encoded_sequence(1, seq![num_documents]) + docs_body(lists1, lists1.len() as int),
            ),
            sequences_of(freqs_body(lists1, lists1.len() as int)),
            terms_of_lists(lists1),
            lists2.len() as int,
        ),
        records2.len() == min2(
            head_elems(
                encoded_sequence(records1.len() as u32, doclengths_of(records1)),
            ).len() as int,
            titles_of(records1).len() as int,
        ),
        forall|i: int|
            0 <= i < records2.len() ==> {
                &&& (#[trigger] records2[i]).docid == i
                &&& records2[i].doclength == head_elems(
                    encoded_sequence(records1.len() as u32, doclengths_of(records1)),
                )[i]
                &&& records2[i].collection_docid@ == titles_of(records1)[i]
            },
    ensures
        lists2.len() == lists1.len(),
        records2.len() == records1.len(),
        all_lists_ok(lists2),
        doc_records_ok(records2),
        records2.len() <= u32::MAX,
        forall|i: int|
            0 <= i < lists2.len() ==> (#[trigger] lists2[i]).df == lists2[i].postings@.len(),
        terms_of_lists(lists2) == terms_of_lists(lists1),
        lines_sorted(terms_of_lists(lists2)),
        docs_body(lists2, lists2.len() as int) == docs_body(lists1, lists1.len() as int),
        freqs_body(lists2, lists2.len() as int) == freqs_body(lists1, lists1.len() as int),
        doclengths_of(records2) == doclengths_of(records1),
        titles_of(records2) == titles_of(records1),
        encoded_sequence(records2.len() as u32, doclengths_of(records2)) == encoded_sequence(
            records1.len() as u32,
            doclengths_of(records1),
        ),
{
    vstd::bytes::lemma_auto_spec_u32_to_from_le_bytes();
    let big = lists1.len() as int;
    let docs1 = encoded_sequence(1, seq![num_documents]) + docs_body(lists1, big);
    let freqs1 = freqs_body(lists1, big);
    let sizes1 = encoded_sequence(records1.len() as u32, doclengths_of(records1));

    // The first collection's streams decode to the rows they were built
    // from.
    lemma_bodies_are_collections(lists1, big);
    assert(absolute_docid_rows(lists1).take(big) =~= absolute_docid_rows(lists1));
    assert(frequency_rows(lists1).take(big) =~= frequency_rows(lists1));
    let count_row: Seq<Seq<u32>> = seq![seq![num_documents]];
    assert(encoded_collection(count_row) =~= encoded_sequence(1, seq![num_documents])) by {
        assert(count_row.drop_first() =~= Seq::<Seq<u32>>::empty());
        assert(encoded_collection(Seq::<Seq<u32>>::empty()) == Seq::<u8>::empty());
        assert(count_row.first().len() == 1);
        assert(encoded_collection(count_row) =~= encoded_sequence(1, count_row.first())
            + Seq::<u8>::empty());
        assert(count_row.first() =~= seq![num_documents]);
    }
    lemma_encoded_collection_concat(count_row, absolute_docid_rows(lists1));
    assert(docs1 =~= encoded_collection(count_row + absolute_docid_rows(lists1)));
    let all_rows = count_row + absolute_docid_rows(lists1);
    assert forall|i: int| 0 <= i < all_rows.len() implies (#[trigger] all_rows[i]).len()
        <= u32::MAX by {
        if i > 0 {
            assert(all_rows[i] == absolute_docids(lists1[i - 1].postings@));
            assert(posting_list_ok(&lists1[i - 1]));
        }
    }
    crate::binary_collection::lemma_collection_round_trip(all_rows);
    let ds = sequences_of(docs1);
    assert(ds == all_rows);
    assert forall|i: int| 0 <= i < frequency_rows(lists1).len() implies (
    #[trigger] frequency_rows(lists1)[i]).len() <= u32::MAX by {
        assert(frequency_rows(lists1)[i] == frequencies_of(lists1[i].postings@));
        assert(posting_list_ok(&lists1[i]));
    }
    crate::binary_collection::lemma_collection_round_trip(frequency_rows(lists1));
    let fs = sequences_of(freqs1);
    assert(fs == frequency_rows(lists1));
    assert(ds.len() == big + 1);
    assert(fs.len() == big);
    assert(lists2.len() == big);

    // Each decoded list reproduces the original deltas, frequencies and
    // declared counts.
    assert forall|i: int| 0 <= i < big implies {
        &&& (#[trigger] lists2[i]).df == lists2[i].postings@.len()
        &&& posting_list_ok(&lists2[i])
        &&& lists2[i].df == lists1[i].df
        &&& lists2[i].term@ == lists1[i].term@
        &&& absolute_docids(lists2[i].postings@) == absolute_docids(lists1[i].postings@)
        &&& frequencies_of(lists2[i].postings@) == frequencies_of(lists1[i].postings@)
    } by {
        lemma_lists_decode_prefix_index(lists2, ds, fs, terms_of_lists(lists1), big, i);
        let d = ds[i + 1];
        let f = fs[i as int];
        let ps1 = lists1[i].postings@;
        let ps2 = lists2[i].postings@;
        assert(posting_list_ok(&lists1[i]));
        assert(d == absolute_docids(ps1));
        assert(f == frequencies_of(ps1));
        assert(d.len() == ps1.len() && f.len() == ps1.len());
        assert(min2(d.len() as int, f.len() as int) == ps1.len());
        assert(ps2.len() == ps1.len());
        assert forall|j: int| 0 <= j < ps1.len() implies (#[trigger] ps2[j]).docid == ps1[j].docid
            && ps2[j].tf == ps1[j].tf by {
            assert(d[j] == delta_sum(ps1, j + 1) as u32);
            assert(docids_fit(lists1[i]));
            assert(delta_sum(ps1, j + 1) <= i32::MAX);
            assert(delta_sum(ps1, j + 1) >= 0 && (j > 0 ==> delta_sum(ps1, j) >= 0)) by {
                assert forall|k: int| 0 <= k <= ps1.len() implies delta_sum(ps1, k) >= 0 by {
                    lemma_delta_sum_nonneg(ps1, k);
                }
            }
            if j == 0 {
                assert(ps2[j].docid == d[0] - 0);
            } else {
                assert(ps2[j].docid == d[j] - d[j - 1] as int);
                assert(delta_sum(ps1, j + 1) - delta_sum(ps1, j) == ps1[j].docid);
            }
            assert(ps2[j].tf == f[j]);
            assert(f[j] == ps1[j].tf as u32);
        }
        assert forall|k: int| 1 <= k <= ps2.len() implies delta_sum(ps2, k) <= u32::MAX by {
            lemma_delta_sum_pointwise(ps2, ps1, k);
        }
        assert(absolute_docids(ps2) =~= absolute_docids(ps1)) by {
            assert forall|k: int| 0 <= k < ps2.len() implies absolute_docids(ps2)[k]
                == absolute_docids(ps1)[k] by {
                lemma_delta_sum_pointwise(ps2, ps1, k + 1);
            }
        }
        assert(frequencies_of(ps2) =~= frequencies_of(ps1));
        assert(sum_u32(f, ps1.len() as int) >= 0) by {
            lemma_sum_u32_nonneg(f, ps1.len() as int);
        }
    }
    assert(terms_of_lists(lists2) =~= terms_of_lists(lists1));
    lemma_bodies_pointwise(lists2, lists1, big);

    // The document records decode to themselves.
    let lens = doclengths_of(records1);
    assert(head_ok(sizes1) && head_elems(sizes1) == lens) by {
        crate::binary_collection::lemma_encoded_u32s_len(lens);
        assert(sizes1.subrange(0, 4) =~= vstd::bytes::spec_u32_to_le_bytes(
            records1.len() as u32,
        ));
        assert(head_len(sizes1) == records1.len());
        assert(sizes1.subrange(4, 4 + 4 * head_len(sizes1)) =~= crate::binary_collection::encoded_u32s(lens));
        crate::binary_collection::lemma_u32s_of_encoded(lens);
    }
    assert(records2.len() == records1.len());
    assert forall|i: int| 0 <= i < records2.len() implies (#[trigger] records2[i]).docid == i
        && records2[i].doclength == records1[i].doclength && records2[i].collection_docid@
        == records1[i].collection_docid@ by {
        assert(lens[i] == records1[i].doclength as u32);
        assert(records1[i].doclength >= 0);
    }
    assert(doclengths_of(records2) =~= doclengths_of(records1));
    assert(titles_of(records2) =~= titles_of(records1));
}

/// Prefix sums of non-negative deltas are non-negative.
proof fn lemma_delta_sum_nonneg(ps: Seq<Posting>, k: int)
    requires
        forall|j: int| 0 <= j < ps.len() ==> (#[trigger] ps[j]).docid >= 0,
        k <= ps.len(),
    ensures
        k >= 0 ==> delta_sum(ps, k) >= 0,
    decreases k,
{
    if k > 0 {
        lemma_delta_sum_nonneg(ps, k - 1);
    }
}

/// Sums of unsigned values are non-negative.
proof fn lemma_sum_u32_nonneg(es: Seq<u32>, k: int)
    ensures
        k >= 0 ==> sum_u32(es, k) >= 0,
    decreases k,
{
    if k > 0 {
        lemma_sum_u32_nonneg(es, k - 1);
    }
}

/// Checks that every position in `order` is below `limit`.
fn order_within(order: &Vec<usize>, limit: usize) -> (r: bool)
    ensures
        r == forall|k: int| 0 <= k < order@.len() ==> (#[trigger] order@[k]) < limit,
{
    let n = order.len();
    let mut i: usize = 0;
    while i < n
        invariant
            0 <= i <= n,
            n == order@.len(),
            forall|k: int| 0 <= k < i ==> (#[trigger] order@[k]) < limit,
        decreases n - i,
    {
        if order[i] >= limit {
            return false;
        }
        i = i + 1;
    }
    true
}

/// Pairs each value of the sizes sequence with the title line of the same
/// position — the position is the document identifier — as far as both
/// reach.
#[verifier::loop_isolation(false)]
pub fn build_doc_records(doc_sizes: &BinarySequence<'_>, titles: &Vec<Vec<u8>>) -> (r: Result<
    Vec<DocRecord>,
    ConversionError,
>)
    requires
        doc_sizes.wf(),
    ensures
        ({
            let n = min2(doc_sizes@.len() as int, titles@.len() as int);
            match r {
                Ok(rs) => {
                    &&& rs@.len() == n
                    &&& forall|i: int|
                        0 <= i < n ==> (#[trigger] rs@[i]).docid == i && rs@[i].doclength
                            == doc_sizes@[i] && rs@[i].collection_docid@ == byte_lines(titles@)[i]
                },
                Err(e) => {
                    &&& e is CountOverflow
                    &&& (n - 1 > i32::MAX || exists|i: int|
                        0 <= i < n && #[trigger] doc_sizes@[i] > i32::MAX)
                },
            }
        }),
{
    let n = if doc_sizes.len() <= titles.len() {
        doc_sizes.len()
    } else {
        titles.len()
    };
    let mut records: Vec<DocRecord> = Vec::new();
    let mut i: usize = 0;
    while i < n
        invariant
            doc_sizes.wf(),
            n == min2(doc_sizes@.len() as int, titles@.len() as int),
            0 <= i <= n,
            i <= i32::MAX + 1,
            records@.len() == i,
            forall|k: int|
                0 <= k < i ==> (#[trigger] records@[k]).docid == k && records@[k].doclength
                    == doc_sizes@[k] && records@[k].collection_docid@ == byte_lines(titles@)[k],
        decreases n - i,
    {
        if i > i32::MAX as usize {
            return Err(ConversionError::CountOverflow);
        }
        let size = match doc_sizes.get(i) {
            Some(v) => v,
            None => {
                proof {
                    assert(false);
                }
                0
            },
        };
        if size > i32::MAX as u32 {
            return Err(ConversionError::CountOverflow);
        }
        let title = titles[i].clone();
        proof {
            assert(title@ =~= byte_lines(titles@)[i as int]);
        }
        records.push(DocRecord { docid: i as i32, collection_docid: title, doclength: size as i32 });
        i = i + 1;
    }
    Ok(records)
}

/// Whether a header can be computed from the given streams: the document
/// stream decodes and starts with a non-empty count sequence, the sizes
/// file starts with a sequence, and every derived count fits its signed
/// wire field.
pub open spec fn header_computable(documents: Seq<u8>, doc_sizes: Seq<u8>) -> bool {
    &&& documents.len() % 4 == 0
    &&& parses_fully(documents)
    &&& sequences_of(documents).len() >= 1
    &&& sequences_of(documents)[0].len() >= 1
    &&& doc_sizes.len() % 4 == 0
    &&& doc_sizes.len() > 0
    &&& head_ok(doc_sizes)
    &&& sequences_of(documents)[0][0] <= i32::MAX
    &&& sequences_of(documents).len() - 1 <= i32::MAX
    &&& sum_u32(head_elems(doc_sizes), head_elems(doc_sizes).len() as int) <= i64::MAX
}

/// Partial sums of unsigned values never shrink.
proof fn lemma_sum_u32_mono(es: Seq<u32>, a: int, b: int)
    requires
        0 <= a <= b <= es.len(),
    ensures
        sum_u32(es, a) <= sum_u32(es, b),
    decreases b - a,
{
    if a < b {
        lemma_sum_u32_mono(es, a, b - 1);
    }
}

/// Computes the synthetic header of a PISA collection: the document count
/// from the leading singleton of the document stream, the postings-list
/// count from the sequences after it, and the total term count as the sum
/// of the sizes sequence. Fails exactly when [`header_computable`] does
/// not hold of the two streams.
#[verifier::loop_isolation(false)]
pub fn compute_header(
    documents_bytes: &[u8],
    sizes_bytes: &[u8],
    description: &Vec<u8>,
) -> (r: Result<CiffHeader, ConversionError>)
    ensures
        match r {
            Ok(h) => {
                &&& documents_bytes@.len() % 4 == 0
                &&& parses_fully(documents_bytes@)
                &&& sequences_of(documents_bytes@).len() >= 1
                &&& sequences_of(documents_bytes@)[0].len() >= 1
                &&& sizes_bytes@.len() % 4 == 0
                &&& sizes_bytes@.len() > 0
                &&& head_ok(sizes_bytes@)
                &&& h.version == 1
                &&& h.num_postings_lists == sequences_of(documents_bytes@).len() - 1
                &&& h.total_postings_lists == h.num_postings_lists
                &&& h.num_docs == sequences_of(documents_bytes@)[0][0]
                &&& h.total_docs == h.num_docs
                &&& h.total_terms_in_collection == sum_u32(
                    head_elems(sizes_bytes@),
                    head_elems(sizes_bytes@).len() as int,
                )
                &&& h.description@ == description@
            },
            Err(_) => !header_computable(documents_bytes@, sizes_bytes@),
        },
{
    let documents = match RandomAccessBinaryCollection::try_from(documents_bytes) {
        Ok(c) => c,
        Err(e) => {
            return Err(ConversionError::Format(e));
        },
    };
    if documents.len() == 0 {
        return Err(ConversionError::Format(InvalidFormat::new("Unable to read document count")));
    }
    let first = documents.at(0);
    let num_documents = match first.get(0) {
        Some(v) => v,
        None => {
            return Err(
                ConversionError::Format(InvalidFormat::new("Unable to read document count")),
            );
        },
    };
    if num_documents > i32::MAX as u32 {
        return Err(ConversionError::CountOverflow);
    }
    let num_postings_lists = documents.len() - 1;
    if num_postings_lists > i32::MAX as usize {
        return Err(ConversionError::CountOverflow);
    }
    let size_sequence = match sizes(sizes_bytes) {
        Ok(s) => s,
        Err(e) => {
            return Err(ConversionError::Format(e));
        },
    };
    let m = size_sequence.len();
    let mut total: i64 = 0;
    let mut i: usize = 0;
    while i < m
        invariant
            size_sequence.wf(),
            m == size_sequence@.len(),
            0 <= i <= m,
            total == sum_u32(size_sequence@, i as int),
        decreases m - i,
    {
        let v = match size_sequence.get(i) {
            Some(v) => v,
            None => {
                proof {
                    assert(false);
                }
                0
            },
        };
        total = match total.checked_add(v as i64) {
            Some(t) => t,
            None => {
                proof {
                    lemma_sum_u32_mono(size_sequence@, i + 1, size_sequence@.len() as int);
                }
                return Err(ConversionError::CountOverflow);
            },
        };
        i = i + 1;
    }
    let description_copy = vstd::slice::slice_to_vec(description.as_slice());
    Ok(
        CiffHeader {
            version: 1,
            num_postings_lists: num_postings_lists as i32,
            total_postings_lists: num_postings_lists as i32,
            num_docs: num_documents as i32,
            total_docs: num_documents as i32,
            total_terms_in_collection: total,
            description: description_copy,
        },
    )
}

} // verus!
