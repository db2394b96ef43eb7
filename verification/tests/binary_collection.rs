use ciff::BinaryCollection;
use ciff::BinarySequence;
use ciff::InvalidFormat;
use ciff::RandomAccessBinaryCollection;
use ciff::encode_u32_sequence;

const COLLECTION_BYTES: [u8; 100] = [
    1, 0, 0, 0, 3, 0, 0, 0, // Number of documents
    1, 0, 0, 0, 0, 0, 0, 0, // t0
    1, 0, 0, 0, 0, 0, 0, 0, // t1
    1, 0, 0, 0, 0, 0, 0, 0, // t2
    1, 0, 0, 0, 0, 0, 0, 0, // t3
    1, 0, 0, 0, 2, 0, 0, 0, // t4
    3, 0, 0, 0, 0, 0, 0, 0, 1, 0, 0, 0, 2, 0, 0, 0, // t5
    2, 0, 0, 0, 1, 0, 0, 0, 2, 0, 0, 0, // t6
    3, 0, 0, 0, 0, 0, 0, 0, 1, 0, 0, 0, 2, 0, 0, 0, // t7
    1, 0, 0, 0, 1, 0, 0, 0, // t8
];

fn sequence_elements(sequence: &BinarySequence<'_>) -> Vec<u32> {
    let mut elements = Vec::new();
    let mut it = sequence.iter();
    loop {
        match it.next() {
            Some(element) => elements.push(element),
            None => break,
        }
    }
    elements
}

fn collect_all(mut collection: BinaryCollection<'_>) -> Vec<(usize, Vec<u32>)> {
    let mut sequences = Vec::new();
    loop {
        match collection.next() {
            None => break,
            Some(result) => {
                let sequence = result.unwrap();
                sequences.push((sequence.len(), sequence_elements(&sequence)));
            }
        }
    }
    sequences
}

#[test]
fn test_binary_sequence() {
    let bytes: Vec<u8> = (0_u32..10).flat_map(|i| i.to_le_bytes().to_vec()).collect();
    let sequence = BinarySequence::try_from(bytes.as_slice()).unwrap();
    assert!(!sequence.is_empty());
    for n in 0..10 {
        assert_eq!(sequence.get(n).unwrap(), n as u32);
    }
}

#[test]
fn test_binary_collection() {
    let coll = BinaryCollection::try_from(COLLECTION_BYTES.as_ref()).unwrap();
    let sequences = collect_all(coll);
    assert_eq!(
        sequences,
        vec![
            (1, vec![3]),
            (1, vec![0]),
            (1, vec![0]),
            (1, vec![0]),
            (1, vec![0]),
            (1, vec![2]),
            (3, vec![0, 1, 2]),
            (2, vec![1, 2]),
            (3, vec![0, 1, 2]),
            (1, vec![1]),
        ]
    );
}

#[test]
fn test_binary_collection_invalid_format() {
    let input: Vec<u8> = vec![1, 0, 0, 0, 3, 0, 0, 0, 1];
    let coll = BinaryCollection::try_from(input.as_slice());
    assert_eq!(
        coll.err(),
        Some(InvalidFormat::new(
            "The byte-length of the collection is not divisible by the element size (4)"
        ))
    );
}

#[test]
fn test_random_access_binary_collection() {
    let coll = RandomAccessBinaryCollection::try_from(COLLECTION_BYTES.as_ref()).unwrap();
    assert!(!coll.is_empty());
    let sequences = collect_all(coll.iter());
    assert_eq!(
        sequences,
        vec![
            (1, vec![3]),
            (1, vec![0]),
            (1, vec![0]),
            (1, vec![0]),
            (1, vec![0]),
            (1, vec![2]),
            (3, vec![0, 1, 2]),
            (2, vec![1, 2]),
            (3, vec![0, 1, 2]),
            (1, vec![1]),
        ]
    );
    assert_eq!(coll.offsets, vec![0, 8, 16, 24, 32, 40, 48, 64, 76, 92]);
    assert_eq!(coll.len(), 10);
    assert_eq!(
        (0..coll.len())
            .map(|idx| sequence_elements(&coll.at(idx)))
            .collect::<Vec<Vec<u32>>>(),
        vec![
            vec![3],
            vec![0],
            vec![0],
            vec![0],
            vec![0],
            vec![2],
            vec![0, 1, 2],
            vec![1, 2],
            vec![0, 1, 2],
            vec![1],
        ]
    );
}

#[test]
fn random_access_get_out_of_bounds_is_none() {
    let coll = RandomAccessBinaryCollection::try_from(COLLECTION_BYTES.as_ref()).unwrap();
    assert!(coll.get(10).is_none());
    assert!(coll.get(9).is_some());
}

#[test]
fn binary_sequence_get_handles_corrupt_lengths() {
    // A buffer whose declared length exceeds the bytes that follow it:
    // every access must answer with `None` rather than fail.
    let bytes: Vec<u8> = vec![7, 0, 0, 0, 1, 0, 0, 0];
    let mut collection = BinaryCollection::try_from(bytes.as_slice()).unwrap();
    assert!(collection.next().unwrap().is_err());
    // A sequence over a short buffer: out-of-range indices yield `None`.
    let sequence = BinarySequence::try_from(&bytes[4..]).unwrap();
    assert_eq!(sequence.get(0), Some(1));
    for idx in [1usize, 2, 100, usize::MAX] {
        assert_eq!(sequence.get(idx), None);
    }
}

#[test]
fn encode_then_decode_round_trips() {
    let mut buffer: Vec<u8> = Vec::new();
    encode_u32_sequence(&mut buffer, 3, &[1, 2, 3]);
    encode_u32_sequence(&mut buffer, 1, &[4]);
    encode_u32_sequence(&mut buffer, 3, &[5, 6, 7]);
    let coll = BinaryCollection::try_from(buffer.as_slice()).unwrap();
    let sequences = collect_all(coll);
    assert_eq!(
        sequences,
        vec![(3, vec![1, 2, 3]), (1, vec![4]), (3, vec![5, 6, 7])]
    );
}
