use ciff::CiffToPisa;
use ciff::ConversionError;
use ciff::DocRecord;
use ciff::Header;
use ciff::JsonlToCiff;
use ciff::PisaToCiff;
use ciff::Posting;
use ciff::PostingsList;
use ciff::ScoredDocument;
use ciff::TermScore;
use ciff::build_doc_records;
use ciff::build_postings_lists;
use ciff::ciff_to_pisa_collection;
use ciff::compute_header;
use ciff::encode_doc_records;
use ciff::jsonl_to_ciff_records;
use ciff::sizes;

fn list(term: &str, postings: &[(i32, i32)]) -> PostingsList {
    PostingsList {
        term: term.as_bytes().to_vec(),
        df: postings.len() as i64,
        cf: postings.iter().map(|&(_, tf)| tf as i64).sum(),
        postings: postings
            .iter()
            .map(|&(docid, tf)| Posting { docid, tf })
            .collect(),
    }
}

fn record(docid: i32, title: &str, doclength: i32) -> DocRecord {
    DocRecord {
        docid,
        collection_docid: title.as_bytes().to_vec(),
        doclength,
    }
}

/// The toy collection: nine terms over three documents, stored as deltas.
fn toy_lists() -> Vec<PostingsList> {
    vec![
        list("01", &[(0, 1)]),
        list("03", &[(0, 1)]),
        list("30", &[(0, 1)]),
        list("content", &[(0, 1)]),
        list("enough", &[(2, 1)]),
        list("head", &[(0, 1), (1, 1), (1, 1)]),
        list("simpl", &[(1, 1), (1, 1)]),
        list("text", &[(0, 1), (1, 1), (1, 3)]),
        list("veri", &[(1, 1)]),
    ]
}

fn toy_records() -> Vec<DocRecord> {
    vec![
        record(0, "WSJ_1", 6),
        record(1, "TREC_DOC_1", 4),
        record(2, "DOC222", 6),
    ]
}

const TOY_DOCS: [u8; 100] = [
    1, 0, 0, 0, 3, 0, 0, 0, // Number of documents
    1, 0, 0, 0, 0, 0, 0, 0, // t0
    1, 0, 0, 0, 0, 0, 0, 0, // t1
    1, 0, 0, 0, 0, 0, 0, 0, // t2
    1, 0, 0, 0, 0, 0, 0, 0, // t3
    1, 0, 0, 0, 2, 0, 0, 0, // t4
    3, 0, 0, 0, 0, 0, 0, 0, 1, 0, 0, 0, 2, 0, 0, 0, // t5
    2, 0, 0, 0, 1, 0, 0, 0, 2, 0, 0, 0, // t6
    3, 0, 0, 0, 0, 0, 0, 0, 1, 0, 0, 0, 2, 0, 0, 0, // t7
    1, 0, 0, 0, 1, 0, 0, 0, // t8
];

const TOY_FREQS: [u8; 92] = [
    1, 0, 0, 0, 1, 0, 0, 0, // t0
    1, 0, 0, 0, 1, 0, 0, 0, // t1
    1, 0, 0, 0, 1, 0, 0, 0, // t2
    1, 0, 0, 0, 1, 0, 0, 0, // t3
    1, 0, 0, 0, 1, 0, 0, 0, // t4
    3, 0, 0, 0, 1, 0, 0, 0, 1, 0, 0, 0, 1, 0, 0, 0, // t5
    2, 0, 0, 0, 1, 0, 0, 0, 1, 0, 0, 0, // t6
    3, 0, 0, 0, 1, 0, 0, 0, 1, 0, 0, 0, 3, 0, 0, 0, // t7
    1, 0, 0, 0, 1, 0, 0, 0, // t8
];

const TOY_SIZES: [u8; 16] = [3, 0, 0, 0, 6, 0, 0, 0, 4, 0, 0, 0, 6, 0, 0, 0];

fn toy_terms() -> Vec<Vec<u8>> {
    ["01", "03", "30", "content", "enough", "head", "simpl", "text", "veri"]
        .iter()
        .map(|t| t.as_bytes().to_vec())
        .collect()
}

#[test]
fn test_size_sequence() {
    let empty_memory = Vec::<u8>::new();
    let result = sizes(&empty_memory);
    assert!(result.is_err());
    assert_eq!(
        "Invalid binary collection format: sizes collection is empty",
        &result.err().unwrap().message()
    );

    let valid_memory: Vec<u8> = [
        5_u32.to_le_bytes(),
        1_u32.to_le_bytes(),
        2_u32.to_le_bytes(),
        3_u32.to_le_bytes(),
        4_u32.to_le_bytes(),
        5_u32.to_le_bytes(),
    ]
    .iter()
    .flatten()
    .copied()
    .collect();
    let result = sizes(&valid_memory);
    assert!(result.is_ok());
    let sequence = result.unwrap();
    let mut elements: Vec<u32> = Vec::new();
    let mut it = sequence.iter();
    loop {
        match it.next() {
            Some(v) => elements.push(v),
            None => break,
        }
    }
    assert_eq!(elements, vec![1_u32, 2, 3, 4, 5]);
}

#[test]
fn test_read_default_header() {
    let header = Header::from_counts(17, 1234).unwrap();
    assert_eq!(header.num_documents, 17);
    assert_eq!(header.num_postings_lists, 1234);
}

#[test]
fn test_read_negative_num_documents() {
    assert!(Header::from_counts(-17, 0).is_err());
}

#[test]
fn test_read_negative_num_posting_lists() {
    assert!(Header::from_counts(0, -1234).is_err());
}

#[test]
fn toy_collection_to_pisa() {
    let header = Header::from_counts(3, 9).unwrap();
    let lists = toy_lists();
    let records = toy_records();
    let out = ciff_to_pisa_collection(&header, &lists, &records).unwrap();
    assert_eq!(out.documents, TOY_DOCS.to_vec());
    assert_eq!(out.frequencies, TOY_FREQS.to_vec());
    assert_eq!(out.sizes, TOY_SIZES.to_vec());
    assert_eq!(out.terms, toy_terms());
    assert_eq!(
        out.titles,
        vec![b"WSJ_1".to_vec(), b"TREC_DOC_1".to_vec(), b"DOC222".to_vec()]
    );
}

#[test]
fn toy_collection_round_trips_byte_identical() {
    // CIFF -> PISA -> CIFF -> PISA on sorted-term input: the second PISA
    // collection is byte-identical to the first.
    let header = Header::from_counts(3, 9).unwrap();
    let first = ciff_to_pisa_collection(&header, &toy_lists(), &toy_records()).unwrap();

    let middle_header = compute_header(&first.documents, &first.sizes, &Vec::new()).unwrap();
    assert_eq!(middle_header.num_docs, 3);
    assert_eq!(middle_header.num_postings_lists, 9);
    assert_eq!(middle_header.total_terms_in_collection, 16);

    let lists2 = build_postings_lists(&first.documents, &first.frequencies, &first.terms).unwrap();
    let size_sequence = sizes(&first.sizes).unwrap();
    let records2 = build_doc_records(&size_sequence, &first.titles).unwrap();

    let header2 = Header::from_counts(
        middle_header.num_docs,
        middle_header.num_postings_lists,
    )
    .unwrap();
    let second = ciff_to_pisa_collection(&header2, &lists2, &records2).unwrap();
    assert_eq!(second.documents, first.documents);
    assert_eq!(second.frequencies, first.frequencies);
    assert_eq!(second.sizes, first.sizes);
    assert_eq!(second.terms, first.terms);
    assert_eq!(second.titles, first.titles);
}

#[test]
fn test_reorder_terms() {
    // The terms file rewritten in reverse order: decoding pairs each term
    // with the postings at its position, and converting back must emit
    // the postings in sorted-term order, exactly as a dictionary would
    // associate them.
    let reversed: Vec<Vec<u8>> = [
        "veri", "text", "simpl", "head", "enough", "content", "30", "03", "01",
    ]
    .iter()
    .map(|t| t.as_bytes().to_vec())
    .collect();
    let lists = build_postings_lists(&TOY_DOCS, &TOY_FREQS, &reversed).unwrap();
    let size_sequence = sizes(&TOY_SIZES).unwrap();
    let titles = vec![b"WSJ_1".to_vec(), b"TREC_DOC_1".to_vec(), b"DOC222".to_vec()];
    let records = build_doc_records(&size_sequence, &titles).unwrap();
    let header = Header::from_counts(3, 9).unwrap();
    let out = ciff_to_pisa_collection(&header, &lists, &records).unwrap();

    assert_eq!(out.titles, titles);
    assert_eq!(out.sizes, TOY_SIZES.to_vec());
    assert_eq!(out.terms, toy_terms());
    assert_eq!(
        out.documents,
        vec![
            1, 0, 0, 0, 3, 0, 0, 0, // Number of documents
            1, 0, 0, 0, 1, 0, 0, 0, // t8
            3, 0, 0, 0, 0, 0, 0, 0, 1, 0, 0, 0, 2, 0, 0, 0, // t7
            2, 0, 0, 0, 1, 0, 0, 0, 2, 0, 0, 0, // t6
            3, 0, 0, 0, 0, 0, 0, 0, 1, 0, 0, 0, 2, 0, 0, 0, // t5
            1, 0, 0, 0, 2, 0, 0, 0, // t4
            1, 0, 0, 0, 0, 0, 0, 0, // t3
            1, 0, 0, 0, 0, 0, 0, 0, // t2
            1, 0, 0, 0, 0, 0, 0, 0, // t1
            1, 0, 0, 0, 0, 0, 0, 0, // t0
        ]
    );
    assert_eq!(
        out.frequencies,
        vec![
            1, 0, 0, 0, 1, 0, 0, 0, // t8
            3, 0, 0, 0, 1, 0, 0, 0, 1, 0, 0, 0, 3, 0, 0, 0, // t7
            2, 0, 0, 0, 1, 0, 0, 0, 1, 0, 0, 0, // t6
            3, 0, 0, 0, 1, 0, 0, 0, 1, 0, 0, 0, 1, 0, 0, 0, // t5
            1, 0, 0, 0, 1, 0, 0, 0, // t4
            1, 0, 0, 0, 1, 0, 0, 0, // t3
            1, 0, 0, 0, 1, 0, 0, 0, // t2
            1, 0, 0, 0, 1, 0, 0, 0, // t1
            1, 0, 0, 0, 1, 0, 0, 0, // t0
        ]
    );
}

#[test]
fn out_of_order_doc_records_fail() {
    // Identifier 2 where 1 is expected: a fatal ordering error, not
    // silent corruption.
    let records = vec![
        record(0, "WSJ_1", 6),
        record(2, "TREC_DOC_1", 4),
        record(1, "DOC222", 6),
    ];
    let direct = encode_doc_records(&records);
    assert!(matches!(direct, Err(ConversionError::OrderingViolation)));

    let header = Header::from_counts(3, 9).unwrap();
    let via_pipeline = ciff_to_pisa_collection(&header, &toy_lists(), &records);
    assert!(matches!(
        via_pipeline,
        Err(ConversionError::OrderingViolation)
    ));
}

#[test]
fn negative_delta_or_frequency_fails() {
    let header = Header::from_counts(3, 1).unwrap();
    let bad_delta = vec![list("term", &[(-1, 1)])];
    assert!(matches!(
        ciff_to_pisa_collection(&header, &bad_delta, &toy_records()),
        Err(ConversionError::CountOverflow)
    ));
    let bad_tf = vec![list("term", &[(1, -1)])];
    assert!(matches!(
        ciff_to_pisa_collection(&header, &bad_tf, &toy_records()),
        Err(ConversionError::CountOverflow)
    ));
}

#[test]
fn misaligned_stream_is_a_format_error() {
    let misaligned: Vec<u8> = vec![1, 0, 0, 0, 2, 0, 0, 0, 9];
    let result = build_postings_lists(&misaligned, &[], &Vec::new());
    match result {
        Err(ConversionError::Format(inner)) => assert_eq!(
            inner.message(),
            "Invalid binary collection format: The byte-length of the collection is not divisible by the element size (4)"
        ),
        _ => panic!("expected a format error"),
    }
}

#[test]
fn equal_terms_keep_their_relative_order() {
    // Two lists under the same term: after reordering, they stay in
    // their original relative order behind the sorted distinct terms.
    let header = Header::from_counts(1, 3).unwrap();
    let lists = vec![
        list("b", &[(0, 7)]),
        list("a", &[(0, 8)]),
        list("a", &[(0, 9)]),
    ];
    let records = vec![record(0, "DOC", 3)];
    let out = ciff_to_pisa_collection(&header, &lists, &records).unwrap();
    assert_eq!(
        out.terms,
        vec![b"a".to_vec(), b"a".to_vec(), b"b".to_vec()]
    );
    assert_eq!(
        out.documents,
        vec![
            1, 0, 0, 0, 1, 0, 0, 0, // Number of documents
            1, 0, 0, 0, 0, 0, 0, 0, // first "a" list
            1, 0, 0, 0, 0, 0, 0, 0, // second "a" list
            1, 0, 0, 0, 0, 0, 0, 0, // the "b" list
        ]
    );
    assert_eq!(
        out.frequencies,
        vec![
            1, 0, 0, 0, 8, 0, 0, 0, // first "a" list
            1, 0, 0, 0, 9, 0, 0, 0, // second "a" list
            1, 0, 0, 0, 7, 0, 0, 0, // the "b" list
        ]
    );
}

fn scored(id: &str, entries: &[(&str, i32)]) -> ScoredDocument {
    ScoredDocument {
        id: id.as_bytes().to_vec(),
        entries: entries
            .iter()
            .map(|&(term, tf)| TermScore {
                term: term.as_bytes().to_vec(),
                tf,
            })
            .collect(),
    }
}

#[test]
fn jsonl_documents_become_sorted_records() {
    let docs = vec![
        scored("doc-b", &[("beta", 2), ("alpha", 1), ("zero", 0), ("neg", -3)]),
        scored("doc-a", &[("alpha", 5)]),
    ];
    let (header, lists, records) = jsonl_to_ciff_records(&docs, &b"notes".to_vec()).unwrap();

    assert_eq!(header.version, 1);
    assert_eq!(header.num_docs, 2);
    assert_eq!(header.total_docs, 2);
    assert_eq!(header.num_postings_lists, 2);
    assert_eq!(header.total_postings_lists, 2);
    // Dropped entries do not count toward the total.
    assert_eq!(header.total_terms_in_collection, 3);
    assert_eq!(header.description, b"notes".to_vec());

    // First-seen identifiers, records sorted by identifier.
    assert_eq!(records.len(), 2);
    assert_eq!(records[0].docid, 0);
    assert_eq!(records[0].collection_docid, b"doc-b".to_vec());
    assert_eq!(records[0].doclength, 2);
    assert_eq!(records[1].docid, 1);
    assert_eq!(records[1].collection_docid, b"doc-a".to_vec());
    assert_eq!(records[1].doclength, 1);

    // Terms sorted; postings sorted by document; deltas stored; no
    // non-positive frequency survives.
    assert_eq!(lists.len(), 2);
    assert_eq!(lists[0].term, b"alpha".to_vec());
    assert_eq!(lists[0].df, 2);
    assert_eq!(lists[0].cf, 6);
    assert_eq!(lists[0].postings, vec![
        Posting { docid: 0, tf: 1 },
        Posting { docid: 1, tf: 5 },
    ]);
    assert_eq!(lists[1].term, b"beta".to_vec());
    assert_eq!(lists[1].df, 1);
    assert_eq!(lists[1].cf, 2);
    assert_eq!(lists[1].postings, vec![Posting { docid: 0, tf: 2 }]);
    for pl in &lists {
        for p in &pl.postings {
            assert!(p.tf > 0);
        }
    }
}

#[test]
fn jsonl_repeated_identifier_reuses_docid() {
    let docs = vec![
        scored("same", &[("a", 1)]),
        scored("other", &[("a", 2)]),
        scored("same", &[("b", 3)]),
    ];
    let (header, lists, records) = jsonl_to_ciff_records(&docs, &Vec::new()).unwrap();
    assert_eq!(header.num_docs, 3);
    // Lines with a repeated identifier share it; records stay sorted.
    assert_eq!(
        records.iter().map(|r| r.docid).collect::<Vec<_>>(),
        vec![0, 0, 1]
    );
    // The repeated document's postings land under its shared identifier.
    assert_eq!(lists[0].term, b"a".to_vec());
    assert_eq!(lists[0].postings, vec![
        Posting { docid: 0, tf: 1 },
        Posting { docid: 1, tf: 2 },
    ]);
    assert_eq!(lists[1].term, b"b".to_vec());
    assert_eq!(lists[1].postings, vec![Posting { docid: 0, tf: 3 }]);
}

#[test]
fn builders_report_first_missing_field() {
    let converter = CiffToPisa::default();
    match converter.validate() {
        Err(ConversionError::MissingField(f)) => assert_eq!(f, "input path undefined"),
        other => panic!("unexpected: {:?}", other.is_ok()),
    }
    let mut converter = CiffToPisa::default();
    converter.input_path("in.ciff");
    match converter.validate() {
        Err(ConversionError::MissingField(f)) => {
            assert_eq!(f, "document postings path undefined")
        }
        other => panic!("unexpected: {:?}", other.is_ok()),
    }
    converter.output_paths("base");
    assert!(converter.validate().is_ok());
    assert_eq!(converter.documents_path.as_deref(), Some("base.docs"));
    assert_eq!(converter.termlex_path.as_deref(), Some("base.termlex"));
    converter.skip_lexicons();
    assert_eq!(converter.termlex_path, None);
    assert_eq!(converter.doclex_path, None);

    let mut pisa = PisaToCiff::default();
    pisa.description("description");
    pisa.index_paths("coll");
    pisa.terms_path("coll.terms");
    pisa.titles_path("coll.documents");
    match pisa.validate() {
        Err(ConversionError::MissingField(f)) => assert_eq!(f, "undefined output path"),
        other => panic!("unexpected: {:?}", other.is_ok()),
    }
    pisa.output_path("out.ciff");
    assert!(pisa.validate().is_ok());

    let mut jsonl = JsonlToCiff::default();
    match jsonl.validate() {
        Err(ConversionError::MissingField(f)) => assert_eq!(f, "No JSON input path was set"),
        other => panic!("unexpected: {:?}", other.is_ok()),
    }
    jsonl.input_path("docs.jsonl");
    jsonl.output_path("out.ciff");
    jsonl.quantize(true);
    assert!(jsonl.validate().is_ok());
    assert!(jsonl.quantize);
}
