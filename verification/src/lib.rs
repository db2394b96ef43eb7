//! Conversion between the CIFF inverted-index exchange format and PISA's
//! uncompressed binary-collection layout, together with the byte-level
//! codecs both rest on.

mod binary_collection;
mod builder;
mod jsonl;
mod payload_vector;
mod pipeline;
mod records;
mod reorder;
mod translate;

pub use binary_collection::BinaryCollection;
pub use binary_collection::BinarySequence;
pub use binary_collection::BinarySequenceIterator;
pub use binary_collection::InvalidFormat;
pub use binary_collection::RandomAccessBinaryCollection;
pub use binary_collection::encode_u32_sequence;
pub use binary_collection::lemma_collection_round_trip;
pub use binary_collection::reorder;
pub use builder::CiffToPisa;
pub use builder::JsonlToCiff;
pub use builder::PisaToCiff;
pub use jsonl::ScoredDocument;
pub use jsonl::TermScore;
pub use jsonl::bytes_equal;
pub use jsonl::jsonl_to_ciff_records;
pub use payload_vector::PayloadIter;
pub use payload_vector::PayloadSlice;
pub use payload_vector::PayloadVector;
pub use payload_vector::lemma_payload_vector_round_trip;
pub use pipeline::PisaCollection;
pub use pipeline::build_doc_records;
pub use pipeline::build_postings_lists;
pub use pipeline::ciff_to_pisa_collection;
pub use pipeline::compute_header;
pub use pipeline::lemma_pisa_ciff_pisa_identity;
pub use records::CiffHeader;
pub use records::ConversionError;
pub use records::DocRecord;
pub use records::Header;
pub use records::Posting;
pub use records::PostingsList;
pub use reorder::apply_permutation;
pub use reorder::lemma_sort_permutation_restores_order;
pub use reorder::order_keeping_first;
pub use reorder::sort_permutation;
pub use translate::check_lines_sorted;
pub use translate::encode_doc_records;
pub use translate::lex_less;
pub use translate::read_document_count;
pub use translate::sizes;
pub use translate::write_posting_list;
