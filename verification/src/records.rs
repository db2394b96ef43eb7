//! Plain record types for the CIFF message stream: the header and the two
//! message kinds that follow it. The wire encoding of these records is an
//! external message format; this library works on the decoded values.
use vstd::prelude::*;

verus! {

use crate::binary_collection::InvalidFormat;

/// A CIFF stream header, with the counts kept as the signed integers the
/// wire format carries. The average document length field of the wire
/// format is derived data — `total_terms_in_collection` divided by
/// `num_docs`, zero when there are no documents — and is computed by the
/// caller that serialises the header.
pub struct CiffHeader {
    /// Format version.
    pub version: i32,
    /// Number of postings lists in this file.
    pub num_postings_lists: i32,
    /// Total postings lists across all chunks.
    pub total_postings_lists: i32,
    /// Number of documents in this file.
    pub num_docs: i32,
    /// Total documents across all chunks.
    pub total_docs: i32,
    /// Total number of term occurrences kept in the collection.
    pub total_terms_in_collection: i64,
    /// Free-text description, as raw bytes.
    pub description: Vec<u8>,
}

/// One posting: the gap from the previous document identifier in the same
/// list (the first posting carries the absolute identifier), and the term
/// frequency within that document.
#[derive(Clone, Copy, PartialEq, Eq, Structural, Debug)]
pub struct Posting {
    /// Document-identifier delta.
    pub docid: i32,
    /// Term frequency.
    pub tf: i32,
}

/// One postings list: a term with its document postings.
pub struct PostingsList {
    /// The term, as raw bytes.
    pub term: Vec<u8>,
    /// Document frequency: the declared number of postings.
    pub df: i64,
    /// Collection frequency: the declared sum of term frequencies.
    pub cf: i64,
    /// The postings, in ascending document order.
    pub postings: Vec<Posting>,
}

/// One document record.
pub struct DocRecord {
    /// Internal document identifier; the stream must carry these densely in
    /// ascending order starting at zero.
    pub docid: i32,
    /// External collection identifier, as raw bytes.
    pub collection_docid: Vec<u8>,
    /// Document length in tokens.
    pub doclength: i32,
}

/// The two counts of the header that drive a conversion, validated to be
/// representable as unsigned 32-bit values.
pub struct Header {
    /// Validated number of postings lists.
    pub num_postings_lists: u32,
    /// Validated number of documents.
    pub num_documents: u32,
}

impl Header {
    /// Converts the signed wire counts, failing fast on a negative value.
    pub fn from_counts(num_docs: i32, num_postings_lists: i32) -> (r: Result<
        Header,
        ConversionError,
    >)
        ensures
            match r {
                Ok(h) => {
                    &&& num_docs >= 0
                    &&& num_postings_lists >= 0
                    &&& h.num_documents == num_docs
                    &&& h.num_postings_lists == num_postings_lists
                },
                Err(e) => (num_docs < 0 || num_postings_lists < 0) && e is CountOverflow,
            },
    {
        if num_docs < 0 || num_postings_lists < 0 {
            Err(ConversionError::CountOverflow)
        } else {
            Ok(Header { num_documents: num_docs as u32, num_postings_lists: num_postings_lists as u32 })
        }
    }
}

/// What can go wrong while converting between the formats, apart from the
/// input and output channels themselves.
#[derive(Debug)]
pub enum ConversionError {
    /// A binary-collection buffer does not decode.
    Format(InvalidFormat),
    /// A signed count or identifier of the wire format does not fit the
    /// unsigned width the target layout needs, or a sum exceeds its width.
    CountOverflow,
    /// A document record's identifier does not match the dense running
    /// counter its position demands.
    OrderingViolation,
    /// A conversion was started before a required path was set; holds the
    /// description of the first missing field.
    MissingField(&'static str),
}

} // verus!
