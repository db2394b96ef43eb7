use ciff::PayloadSlice;
use ciff::PayloadVector;

fn assert_payloads(lex: &PayloadSlice<'_>, payloads: &[&[u8]]) {
    assert!(!lex.is_empty());
    for (idx, payload) in payloads.iter().enumerate() {
        assert_eq!(lex.get(idx as u64), Some(*payload));
        assert_eq!(lex.at(idx as u64), *payload);
    }
    assert!(lex.get(6).is_none());
    let mut collected: Vec<&[u8]> = Vec::new();
    let mut it = lex.iter();
    loop {
        match it.next() {
            Some(payload) => collected.push(payload),
            None => break,
        }
    }
    assert_eq!(collected, payloads);
}

#[test]
fn test_element_access() {
    let payloads = vec![
        b"aardvark".as_ref(),
        b"cat".as_ref(),
        b"dog".as_ref(),
        b"gnu".as_ref(),
        b"mouse".as_ref(),
        b"zebra".as_ref(),
    ];
    let items: Vec<Vec<u8>> = payloads.iter().map(|b| b.to_vec()).collect();
    let lex = PayloadVector::from_payloads(&items);
    assert_payloads(&lex.as_slice(), &payloads);
    assert_payloads(&PayloadSlice::new(&lex.data), &payloads);
}

#[test]
fn round_trip_keeps_empty_entries_and_lists() {
    // An empty list still declares a count of zero.
    let empty: Vec<Vec<u8>> = Vec::new();
    let lex = PayloadVector::from_payloads(&empty);
    assert!(lex.is_empty());
    assert_eq!(lex.len(), 0);
    assert!(lex.get(0).is_none());

    // Empty strings survive the round trip unchanged.
    let items: Vec<Vec<u8>> = vec![b"".to_vec(), b"x".to_vec(), b"".to_vec()];
    let lex = PayloadVector::from_payloads(&items);
    assert_eq!(lex.len(), 3);
    assert_eq!(lex.get(0), Some(b"".as_ref()));
    assert_eq!(lex.get(1), Some(b"x".as_ref()));
    assert_eq!(lex.get(2), Some(b"".as_ref()));
    assert_eq!(lex.get(3), None);
}

#[test]
fn write_then_reload_resolves_every_line() {
    // Build a lexicon, write its bytes out, reload them through the
    // borrowed view, and check that every position resolves to the same
    // byte string as the source line, with none past the end.
    let lines: Vec<Vec<u8>> = vec![
        b"aardvark".to_vec(),
        b"cat".to_vec(),
        b"dog".to_vec(),
        b"gnu".to_vec(),
        b"mouse".to_vec(),
        b"zebra".to_vec(),
    ];
    let lex = PayloadVector::from_payloads(&lines);
    let mut written: Vec<u8> = Vec::new();
    lex.write(&mut written);
    let reloaded = PayloadSlice::new(&written);
    assert_eq!(reloaded.len(), lines.len() as u64);
    for (i, line) in lines.iter().enumerate() {
        assert_eq!(reloaded.get(i as u64), Some(line.as_slice()));
    }
    assert_eq!(reloaded.get(lines.len() as u64), None);
}

#[test]
fn truncated_buffer_reads_are_rejected() {
    // A buffer shorter than its own offset table must yield `None`, not
    // read out of range.
    let lines: Vec<Vec<u8>> = vec![b"alpha".to_vec(), b"beta".to_vec()];
    let lex = PayloadVector::from_payloads(&lines);
    let truncated = &lex.data[..lex.data.len() - 6];
    let view = PayloadSlice::new(truncated);
    assert_eq!(view.len(), 2);
    assert_eq!(view.get(1), None);
    let tiny = PayloadSlice::new(&lex.data[..4]);
    assert_eq!(tiny.len(), 0);
    assert_eq!(tiny.get(0), None);
}
