//! Translation between the CIFF record stream and the flat PISA streams:
//! docid delta expansion and re-derivation, document-length and title
//! pairing, and the lexicographic order check on term lines.
use vstd::prelude::*;

verus! {

use crate::binary_collection::BinaryCollection;
use crate::binary_collection::BinarySequence;
use crate::binary_collection::InvalidFormat;
use crate::binary_collection::encode_u32_sequence;
use crate::binary_collection::encoded_sequence;
use crate::binary_collection::head_elems;
use crate::binary_collection::head_len;
use crate::binary_collection::head_ok;
use crate::binary_collection::head_rest;
use crate::records::ConversionError;
use crate::records::DocRecord;
use crate::records::PostingsList;

/// The byte strings of a list of owned lines.
pub open spec fn byte_lines(lines: Seq<Vec<u8>>) -> Seq<Seq<u8>> {
    lines.map_values(|v: Vec<u8>| v@)
}

/// Strict lexicographic order on byte strings: the order `<` of the host
/// language on byte slices and on strings compared bytewise.
pub open spec fn lex_lt(a: Seq<u8>, b: Seq<u8>) -> bool
    decreases a.len(),
{
    if b.len() == 0 {
        false
    } else if a.len() == 0 {
        true
    } else if a.first() < b.first() {
        true
    } else if a.first() > b.first() {
        false
    } else {
        lex_lt(a.drop_first(), b.drop_first())
    }
}

/// Non-strict lexicographic order.
pub open spec fn lex_leq(a: Seq<u8>, b: Seq<u8>) -> bool {
    !lex_lt(b, a)
}

/// Whether a list of lines is in non-decreasing lexicographic order.
pub open spec fn lines_sorted(lines: Seq<Seq<u8>>) -> bool {
    forall|i: int| 0 <= i && i + 1 < lines.len() ==> lex_leq(#[trigger] lines[i], lines[i + 1])
}

/// Compares two byte strings in lexicographic order.
pub fn lex_less(a: &Vec<u8>, b: &Vec<u8>) -> (r: bool)
    ensures
        r == lex_lt(a@, b@),
{
    let mut i: usize = 0;
    let an = a.len();
    let bn = b.len();
    proof {
        assert(a@.skip(0) =~= a@);
        assert(b@.skip(0) =~= b@);
    }
    while i < an && i < bn
        invariant
            0 <= i <= an,
            0 <= i <= bn,
            an == a@.len(),
            bn == b@.len(),
            lex_lt(a@, b@) == lex_lt(a@.skip(i as int), b@.skip(i as int)),
        decreases an - i,
    {
        let x = a[i];
        let y = b[i];
        if x < y {
            proof {
                assert(a@.skip(i as int).first() == x);
                assert(b@.skip(i as int).first() == y);
            }
            return true;
        }
        if x > y {
            proof {
                assert(a@.skip(i as int).first() == x);
                assert(b@.skip(i as int).first() == y);
            }
            return false;
        }
        proof {
            assert(a@.skip(i as int).first() == x);
            assert(b@.skip(i as int).first() == y);
            assert(a@.skip(i as int).drop_first() =~= a@.skip(i as int + 1));
            assert(b@.skip(i as int).drop_first() =~= b@.skip(i as int + 1));
        }
        i = i + 1;
    }
    proof {
        if i >= bn {
            assert(b@.skip(i as int).len() == 0);
        } else {
            assert(a@.skip(i as int).len() == 0);
            assert(b@.skip(i as int).len() > 0);
        }
    }
    i < bn
}

/// Checks that the given lines are in non-decreasing lexicographic order,
/// as a conformant term file must be.
pub fn check_lines_sorted(lines: &Vec<Vec<u8>>) -> (r: bool)
    ensures
        r == lines_sorted(byte_lines(lines@)),
{
    let ghost model = byte_lines(lines@);
    let n = lines.len();
    if n == 0 {
        return true;
    }
    let mut i: usize = 0;
    while i < n - 1
        invariant
            n >= 1,
            model == byte_lines(lines@),
            n == lines@.len(),
            0 <= i < n,
            forall|j: int| 0 <= j < i ==> lex_leq(#[trigger] model[j], model[j + 1]),
        decreases n - i,
    {
        if lex_less(&lines[i + 1], &lines[i]) {
            proof {
                assert(!lex_leq(model[i as int], model[i as int + 1]));
            }
            return false;
        }
        i = i + 1;
    }
    proof {
        assert(model.len() == lines@.len());
        assert forall|j: int| 0 <= j && j + 1 < model.len() implies lex_leq(
            #[trigger] model[j],
            model[j + 1],
        ) by {
            assert(j < i);
        }
    }
    true
}

/// Sum of the first `k` stored docid deltas; the absolute identifier of
/// posting `k - 1`.
pub open spec fn delta_sum(ps: Seq<crate::records::Posting>, k: int) -> int
    decreases k,
{
    if k <= 0 {
        0
    } else {
        delta_sum(ps, k - 1) + ps[k - 1].docid
    }
}

/// The absolute document identifiers of a postings list: the prefix sums
/// of its stored deltas.
pub open spec fn absolute_docids(ps: Seq<crate::records::Posting>) -> Seq<u32> {
    Seq::new(ps.len(), |i: int| delta_sum(ps, i + 1) as u32)
}

/// The term frequencies of a postings list.
pub open spec fn frequencies_of(ps: Seq<crate::records::Posting>) -> Seq<u32> {
    Seq::new(ps.len(), |i: int| ps[i].tf as u32)
}

/// A postings list can be written to the flat layout when its declared
/// document frequency fits an unsigned 32-bit count, no stored delta or
/// frequency is negative, and every absolute identifier stays within the
/// unsigned 32-bit range.
pub open spec fn posting_list_ok(pl: &PostingsList) -> bool {
    &&& 0 <= pl.df <= u32::MAX
    &&& forall|i: int|
        0 <= i < pl.postings@.len() ==> (#[trigger] pl.postings@[i]).docid >= 0
            && pl.postings@[i].tf >= 0
    &&& forall|k: int| 1 <= k <= pl.postings@.len() ==> delta_sum(pl.postings@, k) <= u32::MAX
}

/// Writes one postings list into the document and frequency streams and
/// appends its term: the document sequence holds the absolute identifiers
/// recovered by prefix-summing the stored deltas, the frequency sequence
/// holds the raw frequencies, and both length prefixes carry the declared
/// document frequency. Fails, changing nothing, exactly when the list
/// cannot be represented ([`posting_list_ok`]).
pub fn write_posting_list(
    posting_list: &PostingsList,
    documents: &mut Vec<u8>,
    frequencies: &mut Vec<u8>,
    terms: &mut Vec<Vec<u8>>,
) -> (r: Result<(), ConversionError>)
    ensures
        match r {
            Ok(()) => {
                &&& posting_list_ok(posting_list)
                &&& final(documents)@ == old(documents)@ + encoded_sequence(
                    posting_list.df as u32,
                    absolute_docids(posting_list.postings@),
                )
                &&& final(frequencies)@ == old(frequencies)@ + encoded_sequence(
                    posting_list.df as u32,
                    frequencies_of(posting_list.postings@),
                )
                &&& byte_lines(final(terms)@) == byte_lines(old(terms)@).push(posting_list.term@)
            },
            Err(e) => {
                &&& !posting_list_ok(posting_list)
                &&& e is CountOverflow
                &&& final(documents)@ == old(documents)@
                &&& final(frequencies)@ == old(frequencies)@
                &&& byte_lines(final(terms)@) == byte_lines(old(terms)@)
            },
        },
{
    let ghost ps = posting_list.postings@;
    if posting_list.df < 0 || posting_list.df > u32::MAX as i64 {
        return Err(ConversionError::CountOverflow);
    }
    let n = posting_list.postings.len();
    let mut doc_elems: Vec<u32> = Vec::new();
    let mut freq_elems: Vec<u32> = Vec::new();
    let mut prev: u32 = 0;
    let mut i: usize = 0;
    while i < n
        invariant
            ps == posting_list.postings@,
            n == ps.len(),
            0 <= i <= n,
            prev == delta_sum(ps, i as int),
            doc_elems@.len() == i,
            freq_elems@.len() == i,
            forall|j: int| 0 <= j < i ==> doc_elems@[j] == delta_sum(ps, j + 1) as u32,
            forall|j: int| 0 <= j < i ==> freq_elems@[j] == ps[j].tf as u32,
            forall|j: int|
                0 <= j < i ==> (#[trigger] ps[j]).docid >= 0 && ps[j].tf >= 0,
            forall|k: int| 1 <= k <= i ==> delta_sum(ps, k) <= u32::MAX,
        decreases n - i,
    {
        let p = posting_list.postings[i];
        if p.docid < 0 || p.tf < 0 {
            return Err(ConversionError::CountOverflow);
        }
        match prev.checked_add(p.docid as u32) {
            Some(next) => {
                prev = next;
                doc_elems.push(prev);
                freq_elems.push(p.tf as u32);
            },
            None => {
                proof {
                    assert(delta_sum(ps, i as int + 1) > u32::MAX);
                }
                return Err(ConversionError::CountOverflow);
            },
        }
        i = i + 1;
    }
    proof {
        assert(doc_elems@ =~= absolute_docids(ps));
        assert(freq_elems@ =~= frequencies_of(ps));
    }
    encode_u32_sequence(documents, posting_list.df as u32, doc_elems.as_slice());
    encode_u32_sequence(frequencies, posting_list.df as u32, freq_elems.as_slice());
    let term = posting_list.term.clone();
    proof {
        assert(term@ =~= posting_list.term@);
    }
    terms.push(term);
    proof {
        assert(byte_lines(terms@) =~= byte_lines(old(terms)@).push(posting_list.term@));
    }
    Ok(())
}

/// The document lengths of a record stream.
pub open spec fn doclengths_of(rs: Seq<DocRecord>) -> Seq<u32> {
    Seq::new(rs.len(), |i: int| rs[i].doclength as u32)
}

/// The external identifiers of a record stream.
pub open spec fn titles_of(rs: Seq<DocRecord>) -> Seq<Seq<u8>> {
    Seq::new(rs.len(), |i: int| rs[i].collection_docid@)
}

/// A record stream is acceptable when each record carries exactly its
/// position as its identifier — dense, ascending, starting at zero — and a
/// non-negative length.
pub open spec fn doc_records_ok(rs: Seq<DocRecord>) -> bool {
    forall|i: int|
        0 <= i < rs.len() ==> (#[trigger] rs[i]).docid == i && rs[i].doclength >= 0
}

/// Turns the document records into the sizes stream (one sequence of all
/// lengths by ascending identifier) and the title lines. Fails, yielding
/// nothing, exactly when a record is out of order, a length is negative,
/// or the record count does not fit the 32-bit length prefix. A record
/// whose identifier differs from the dense running counter is an
/// [`ConversionError::OrderingViolation`], never silent corruption.
pub fn encode_doc_records(records: &Vec<DocRecord>) -> (r: Result<
    (Vec<u8>, Vec<Vec<u8>>),
    ConversionError,
>)
    ensures
        match r {
            Ok((sizes, titles)) => {
                &&& records@.len() <= u32::MAX
                &&& doc_records_ok(records@)
                &&& sizes@ == encoded_sequence(records@.len() as u32, doclengths_of(records@))
                &&& byte_lines(titles@) == titles_of(records@)
            },
            Err(e) => {
                &&& !(records@.len() <= u32::MAX && doc_records_ok(records@))
                &&& match e {
                    ConversionError::OrderingViolation => exists|i: int|
                        0 <= i < records@.len() && (#[trigger] records@[i]).docid != i,
                    ConversionError::CountOverflow => true,
                    _ => false,
                }
            },
        },
{
    let n = records.len();
    if n > u32::MAX as usize {
        return Err(ConversionError::CountOverflow);
    }
    let mut lengths: Vec<u32> = Vec::new();
    let mut titles: Vec<Vec<u8>> = Vec::new();
    let mut i: usize = 0;
    while i < n
        invariant
            n == records@.len(),
            n <= u32::MAX,
            0 <= i <= n,
            lengths@.len() == i,
            titles@.len() == i,
            forall|j: int| 0 <= j < i ==> lengths@[j] == records@[j].doclength as u32,
            forall|j: int| 0 <= j < i ==> titles@[j]@ == records@[j].collection_docid@,
            forall|j: int|
                0 <= j < i ==> (#[trigger] records@[j]).docid == j && records@[j].doclength >= 0,
        decreases n - i,
    {
        let record = &records[i];
        if record.docid < 0 || record.doclength < 0 {
            return Err(ConversionError::CountOverflow);
        }
        if record.docid as usize != i {
            return Err(ConversionError::OrderingViolation);
        }
        lengths.push(record.doclength as u32);
        let title = record.collection_docid.clone();
        proof {
            assert(title@ =~= records@[i as int].collection_docid@);
        }
        titles.push(title);
        i = i + 1;
    }
    let mut sizes: Vec<u8> = Vec::new();
    proof {
        assert(lengths@ =~= doclengths_of(records@));
    }
    encode_u32_sequence(&mut sizes, n as u32, lengths.as_slice());
    proof {
        assert(sizes@ =~= encoded_sequence(records@.len() as u32, doclengths_of(records@)));
        assert(byte_lines(titles@) =~= titles_of(records@));
    }
    Ok((sizes, titles))
}

/// Reads the leading document-count singleton of a document stream,
/// consuming it.
pub fn read_document_count(documents: &mut BinaryCollection<'_>) -> (r: Result<
    u32,
    InvalidFormat,
>)
    ensures
        match r {
            Ok(count) => {
                &&& old(documents)@.len() > 0
                &&& head_ok(old(documents)@)
                &&& head_len(old(documents)@) >= 1
                &&& count == head_elems(old(documents)@)[0]
                &&& final(documents)@ == head_rest(old(documents)@)
            },
            Err(e) => {
                &&& !(old(documents)@.len() > 0 && head_ok(old(documents)@) && head_len(
                    old(documents)@,
                ) >= 1)
                &&& e@ == if old(documents)@.len() == 0 || (head_ok(old(documents)@) && head_len(
                    old(documents)@,
                ) < 1) {
                    Some("Unable to read document count"@)
                } else {
                    None::<Seq<char>>
                }
            },
        },
{
    match documents.next() {
        None => Err(InvalidFormat::new("Unable to read document count")),
        Some(Err(e)) => Err(e),
        Some(Ok(sequence)) => match sequence.get(0) {
            Some(count) => Ok(count),
            None => Err(InvalidFormat::new("Unable to read document count")),
        },
    }
}

/// Parses a sizes file: a binary collection whose first sequence holds the
/// length of every document.
pub fn sizes(memory: &[u8]) -> (r: Result<BinarySequence<'_>, InvalidFormat>)
    ensures
        match r {
            Ok(s) => {
                &&& memory@.len() % 4 == 0
                &&& memory@.len() > 0
                &&& head_ok(memory@)
                &&& s.wf()
                &&& s@ == head_elems(memory@)
                &&& s.length == head_len(memory@)
            },
            Err(e) => {
                &&& !(memory@.len() % 4 == 0 && memory@.len() > 0 && head_ok(memory@))
                &&& e@ == if memory@.len() % 4 != 0 {
                    Some("The byte-length of the collection is not divisible by the element size (4)"@)
                } else if memory@.len() == 0 {
                    Some("sizes collection is empty"@)
                } else {
                    None::<Seq<char>>
                }
            },
        },
{
    let mut collection = match BinaryCollection::try_from(memory) {
        Ok(c) => c,
        Err(e) => {
            return Err(e);
        },
    };
    match collection.next() {
        None => Err(InvalidFormat::new("sizes collection is empty")),
        Some(Ok(sequence)) => Ok(sequence),
        Some(Err(e)) => Err(e),
    }
}

} // verus!
