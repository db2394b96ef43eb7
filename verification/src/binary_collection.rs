//! The PISA "binary collection" layout: a byte buffer holding a chain of
//! sequences, each a 4-byte little-endian length `n` followed by `n` 4-byte
//! little-endian unsigned integers.
use vstd::prelude::*;

verus! {

use vstd::bytes::spec_u32_from_le_bytes;
use vstd::bytes::spec_u32_to_le_bytes;
use vstd::bytes::u32_from_le_bytes;
use vstd::bytes::u32_to_le_bytes;
use vstd::bytes::lemma_auto_spec_u32_to_from_le_bytes;
use vstd::slice::slice_subrange;

/// The unsigned values encoded back-to-back in a byte buffer, four bytes each,
/// little-endian. A trailing fragment shorter than four bytes is ignored.
pub open spec fn u32s_of(b: Seq<u8>) -> Seq<u32> {
    Seq::new((b.len() / 4) as nat, |i: int| spec_u32_from_le_bytes(b.subrange(4 * i, 4 * i + 4)))
}

/// The length prefix of the sequence at the head of the buffer.
pub open spec fn head_len(b: Seq<u8>) -> int
    recommends
        b.len() >= 4,
{
    spec_u32_from_le_bytes(b.subrange(0, 4)) as int
}

/// Whether the buffer is long enough to hold the sequence its head declares.
pub open spec fn head_ok(b: Seq<u8>) -> bool {
    b.len() >= 4 && 4 + 4 * head_len(b) <= b.len()
}

/// The elements of the sequence at the head of the buffer.
pub open spec fn head_elems(b: Seq<u8>) -> Seq<u32>
    recommends
        head_ok(b),
{
    u32s_of(b.subrange(4, 4 + 4 * head_len(b)))
}

/// What remains of the buffer after the head sequence.
pub open spec fn head_rest(b: Seq<u8>) -> Seq<u8>
    recommends
        head_ok(b),
{
    b.skip(4 + 4 * head_len(b))
}

/// Whether the whole buffer decodes as a chain of length-prefixed sequences.
pub open spec fn parses_fully(b: Seq<u8>) -> bool
    decreases b.len(),
{
    if b.len() == 0 {
        true
    } else {
        head_ok(b) && parses_fully(head_rest(b))
    }
}

/// The sequences encoded in the buffer, in order, as far as it decodes.
pub open spec fn sequences_of(b: Seq<u8>) -> Seq<Seq<u32>>
    decreases b.len(),
{
    if b.len() == 0 || !head_ok(b) {
        Seq::empty()
    } else {
        seq![head_elems(b)] + sequences_of(head_rest(b))
    }
}

/// Total byte size of the encoded form of the given sequences:
/// each costs four bytes for its length prefix plus four per element.
pub open spec fn byte_size_of(ss: Seq<Seq<u32>>) -> int
    decreases ss.len(),
{
    if ss.len() == 0 {
        0
    } else {
        4 * (ss.first().len() + 1) + byte_size_of(ss.drop_first())
    }
}

/// Byte offset of each sequence in the encoded form: the prefix sums
/// of `4 * (len_i + 1)`.
pub open spec fn sequence_offsets(ss: Seq<Seq<u32>>) -> Seq<int> {
    Seq::new(ss.len(), |i: int| byte_size_of(ss.take(i)))
}

/// The little-endian encoding of the elements, four bytes each.
pub open spec fn encoded_u32s(es: Seq<u32>) -> Seq<u8>
    decreases es.len(),
{
    if es.len() == 0 {
        Seq::empty()
    } else {
        spec_u32_to_le_bytes(es.first()) + encoded_u32s(es.drop_first())
    }
}

/// One encoded sequence: the length prefix, then the elements.
pub open spec fn encoded_sequence(len: u32, es: Seq<u32>) -> Seq<u8> {
    spec_u32_to_le_bytes(len) + encoded_u32s(es)
}

/// A whole binary collection: the sequences encoded back-to-back, each with
/// its own length as prefix.
pub open spec fn encoded_collection(ss: Seq<Seq<u32>>) -> Seq<u8>
    decreases ss.len(),
{
    if ss.len() == 0 {
        Seq::empty()
    } else {
        encoded_sequence(ss.first().len() as u32, ss.first()) + encoded_collection(ss.drop_first())
    }
}

/// Error raised when bytes cannot be parsed into the collection format.
#[derive(Debug)]
pub struct InvalidFormat {
    /// Optional detail appended to the fixed prefix of [`InvalidFormat::message`].
    pub msg: Option<String>,
}

impl View for InvalidFormat {
    type V = Option<Seq<char>>;

    open spec fn view(&self) -> Option<Seq<char>> {
        match self.msg {
            Some(m) => Some(m@),
            None => None,
        }
    }
}

impl InvalidFormat {
    /// Constructs an error with a message.
    pub fn new(msg: &str) -> (r: Self)
        ensures
            r@ == Some(msg@),
    {
        InvalidFormat { msg: Some(msg.to_owned()) }
    }

    /// Constructs an error without a message.
    pub fn empty() -> (r: Self)
        ensures
            r@ is None,
    {
        InvalidFormat { msg: None }
    }

    /// The full error text: a fixed prefix, then `": "` and the detail if any.
    pub fn message(&self) -> (r: String)
        ensures
            r@ == match self@ {
                Some(m) => "Invalid binary collection format"@ + ": "@ + m,
                None => "Invalid binary collection format"@,
            },
    {
        let mut s = String::from_str("Invalid binary collection format");
        match &self.msg {
            Some(m) => {
                s.append(": ");
                s.append(m.as_str());
            },
            None => {},
        }
        s
    }
}

impl PartialEq for InvalidFormat {
    fn eq(&self, other: &Self) -> (r: bool) {
        match &self.msg {
            Some(a) => match &other.msg {
                Some(b) => *a == *b,
                None => false,
            },
            None => match &other.msg {
                Some(_) => false,
                None => true,
            },
        }
    }
}

impl vstd::std_specs::cmp::PartialEqSpecImpl for InvalidFormat {
    open spec fn obeys_eq_spec() -> bool {
        true
    }

    open spec fn eq_spec(&self, other: &Self) -> bool {
        self@ == other@
    }
}

impl Eq for InvalidFormat {}

/// A single binary sequence: a view of the element bytes (excluding the
/// length prefix) together with the length its prefix declared.
#[derive(Clone, Copy)]
pub struct BinarySequence<'a> {
    /// All bytes of the sequence, **excluding** the length prefix.
    pub bytes: &'a [u8],
    /// Length extracted from the four length-prefix bytes.
    pub length: usize,
}

impl<'a> BinarySequence<'a> {
    /// A sequence is well formed when its byte buffer holds exactly as many
    /// elements as its length field declares.
    pub open spec fn wf(self) -> bool {
        self.bytes@.len() == 4 * self.length
    }
}

impl<'a> View for BinarySequence<'a> {
    type V = Seq<u32>;

    /// The elements that [`BinarySequence::get`] can reach: index `i` is
    /// readable when it is below the declared length and its four bytes lie
    /// within the buffer. On a well-formed sequence this is all `length`
    /// elements.
    open spec fn view(&self) -> Seq<u32> {
        u32s_of(self.bytes@).take(
            if self.length <= self.bytes@.len() / 4 {
                self.length as int
            } else {
                (self.bytes@.len() / 4) as int
            },
        )
    }
}

impl<'a> BinarySequence<'a> {
    /// Constructs a sequence from bare element bytes (no length prefix);
    /// fails when the byte count is not a multiple of four.
    pub fn try_from(bytes: &'a [u8]) -> (r: Result<Self, ()>)
        ensures
            match r {
                Ok(s) => {
                    &&& bytes@.len() % 4 == 0
                    &&& s.wf()
                    &&& s.bytes@ == bytes@
                    &&& s@ == u32s_of(bytes@)
                },
                Err(()) => bytes@.len() % 4 != 0,
            },
    {
        if bytes.len() % 4 == 0 {
            let length = bytes.len() / 4;
            let s = BinarySequence { bytes, length };
            proof {
                assert(s@ =~= u32s_of(bytes@));
            }
            Ok(s)
        } else {
            Err(())
        }
    }

    /// Returns the number of elements the length prefix declared.
    #[must_use]
    pub fn len(&self) -> (r: usize)
        ensures
            r == self.length,
            self.wf() ==> r == self@.len(),
    {
        self.length
    }

    /// Checks if the sequence is empty.
    #[must_use]
    pub fn is_empty(&self) -> (r: bool)
        ensures
            r == (self.length == 0),
    {
        self.length == 0
    }

    /// Returns the `index`-th element, or `None` if `index` is out of bounds.
    /// There is no precondition: on any buffer and any declared length,
    /// including corrupt ones, an out-of-range read yields `None`.
    #[must_use]
    pub fn get(&self, index: usize) -> (r: Option<u32>)
        ensures
            r == if index < self@.len() {
                Some(self@[index as int])
            } else {
                None::<u32>
            },
    {
        if index < self.length && index < self.bytes.len() / 4 {
            assert(4 * (index + 1) <= self.bytes@.len()) by {
                assert(index + 1 <= self.bytes@.len() / 4);
            };
            let offset = index * 4;
            let word = slice_subrange(self.bytes, offset, offset + 4);
            Some(u32_from_le_bytes(word))
        } else {
            None
        }
    }

    /// An iterator over all sequence elements.
    #[must_use]
    pub fn iter(&self) -> (r: BinarySequenceIterator<'a>)
        ensures
            r.sequence == *self,
            r.index == 0,
    {
        BinarySequenceIterator { sequence: *self, index: 0 }
    }

    /// Returns the byte slice of the sequence. This **does not** include the
    /// length prefix.
    #[must_use]
    pub fn bytes(&self) -> (r: &'a [u8])
        ensures
            r@ == self.bytes@,
    {
        self.bytes
    }
}

/// Parses the sequence at the head of `bytes`: reads the four-byte length
/// prefix and takes that many elements. Fails without a message when fewer
/// than four bytes remain or the declared length exceeds what is left.
fn get_from<'a>(bytes: &'a [u8]) -> (r: Result<BinarySequence<'a>, InvalidFormat>)
    ensures
        match r {
            Ok(s) => {
                &&& head_ok(bytes@)
                &&& s.wf()
                &&& s.length == head_len(bytes@)
                &&& s.bytes@ == bytes@.subrange(4, 4 + 4 * head_len(bytes@))
                &&& s@ == head_elems(bytes@)
            },
            Err(e) => !head_ok(bytes@) && e@ is None,
        },
{
    if bytes.len() < 4 {
        return Err(InvalidFormat::empty());
    }
    let prefix = slice_subrange(bytes, 0, 4);
    let length_u32 = u32_from_le_bytes(prefix);
    let length = length_u32 as usize;
    if (length as u64) * 4 + 4 > bytes.len() as u64 {
        return Err(InvalidFormat::empty());
    }
    let end = 4 + length * 4;
    let body = slice_subrange(bytes, 4, end);
    let s = BinarySequence { bytes: body, length };
    proof {
        assert(s@ =~= head_elems(bytes@));
    }
    Ok(s)
}

/// A lazy, forward-only view of a binary collection. Parsing consumes the
/// underlying byte view sequence by sequence.
#[derive(Clone, Copy)]
pub struct BinaryCollection<'a> {
    /// The bytes not yet consumed.
    pub bytes: &'a [u8],
}

impl<'a> View for BinaryCollection<'a> {
    type V = Seq<u8>;

    open spec fn view(&self) -> Seq<u8> {
        self.bytes@
    }
}

impl<'a> BinaryCollection<'a> {
    /// Wraps a byte buffer as a collection; fails when the buffer length is
    /// not a multiple of four.
    pub fn try_from(bytes: &'a [u8]) -> (r: Result<Self, InvalidFormat>)
        ensures
            match r {
                Ok(c) => bytes@.len() % 4 == 0 && c@ == bytes@,
                Err(e) => {
                    &&& bytes@.len() % 4 != 0
                    &&& e@ == Some(
                        "The byte-length of the collection is not divisible by the element size (4)"@,
                    )
                },
            },
    {
        if bytes.len() % 4 == 0 {
            Ok(BinaryCollection { bytes })
        } else {
            Err(
                InvalidFormat::new(
                    "The byte-length of the collection is not divisible by the element size (4)",
                ),
            )
        }
    }

    /// Parses and consumes the next sequence. Returns `None` at the end of
    /// the buffer; a parse failure leaves the collection unchanged.
    pub fn next(&mut self) -> (r: Option<Result<BinarySequence<'a>, InvalidFormat>>)
        ensures
            old(self)@.len() == 0 ==> r is None && *final(self) == *old(self),
            old(self)@.len() > 0 && !head_ok(old(self)@) ==> {
                &&& match r {
                    Some(Err(e)) => e@ is None,
                    _ => false,
                }
                &&& *final(self) == *old(self)
            },
            old(self)@.len() > 0 && head_ok(old(self)@) ==> {
                &&& match r {
                    Some(Ok(s)) => {
                        &&& s.wf()
                        &&& s.length == head_len(old(self)@)
                        &&& s@ == head_elems(old(self)@)
                        &&& s.bytes@ == old(self)@.subrange(4, 4 + 4 * head_len(old(self)@))
                    },
                    _ => false,
                }
                &&& final(self)@ == head_rest(old(self)@)
            },
    {
        if self.bytes.len() == 0 {
            None
        } else {
            match get_from(self.bytes) {
                Ok(sequence) => {
                    let end = 4 + sequence.length * 4;
                    self.bytes = slice_subrange(self.bytes, end, self.bytes.len());
                    Some(Ok(sequence))
                },
                Err(e) => Some(Err(e)),
            }
        }
    }
}

/// Appends one encoded sequence to `writer`: the four little-endian bytes of
/// `len`, then each element of `sequence` as four little-endian bytes. The
/// length prefix is written as given, even if it differs from the number of
/// elements, exactly as the layout permits.
pub fn encode_u32_sequence(writer: &mut Vec<u8>, len: u32, sequence: &[u32])
    ensures
        final(writer)@ == old(writer)@ + encoded_sequence(len, sequence@),
{
    let prefix = u32_to_le_bytes(len);
    writer.append(&mut prefix.clone());
    let ghost base = writer@;
    let mut i: usize = 0;
    while i < sequence.len()
        invariant
            0 <= i <= sequence@.len(),
            writer@ == base + encoded_u32s(sequence@.take(i as int)),
        decreases sequence@.len() - i,
    {
        let word = u32_to_le_bytes(sequence[i]);
        writer.append(&mut word.clone());
        proof {
            let x = sequence@[i as int];
            lemma_encoded_u32s_concat(sequence@.take(i as int), seq![x]);
            assert(sequence@.take(i + 1) =~= sequence@.take(i as int) + seq![x]);
            assert(seq![x].drop_first() =~= Seq::<u32>::empty());
            assert(encoded_u32s(seq![x]) =~= spec_u32_to_le_bytes(x) + encoded_u32s(
                Seq::<u32>::empty(),
            ));
            assert(encoded_u32s(seq![x]) =~= spec_u32_to_le_bytes(x));
        }
        i = i + 1;
    }
    proof {
        assert(sequence@.take(sequence@.len() as int) =~= sequence@);
        assert(writer@ =~= old(writer)@ + encoded_sequence(len, sequence@));
    }
}

/// Encoding distributes over concatenation of element sequences.
pub proof fn lemma_encoded_u32s_concat(a: Seq<u32>, b: Seq<u32>)
    ensures
        encoded_u32s(a + b) == encoded_u32s(a) + encoded_u32s(b),
    decreases a.len(),
{
    if a.len() == 0 {
        assert(a + b =~= b);
        assert(encoded_u32s(a) =~= Seq::<u8>::empty());
        assert(encoded_u32s(a) + encoded_u32s(b) =~= encoded_u32s(b));
    } else {
        lemma_encoded_u32s_concat(a.drop_first(), b);
        assert((a + b).first() == a.first());
        assert((a + b).drop_first() =~= a.drop_first() + b);
        assert(encoded_u32s(a + b) =~= spec_u32_to_le_bytes(a.first()) + (encoded_u32s(
            a.drop_first(),
        ) + encoded_u32s(b)));
        assert(encoded_u32s(a) + encoded_u32s(b) =~= spec_u32_to_le_bytes(a.first())
            + (encoded_u32s(a.drop_first()) + encoded_u32s(b)));
    }
}

/// The byte cost of one more sequence appended at the back.
pub proof fn lemma_byte_size_of_push(ss: Seq<Seq<u32>>, s: Seq<u32>)
    ensures
        byte_size_of(ss.push(s)) == byte_size_of(ss) + 4 * (s.len() + 1),
    decreases ss.len(),
{
    if ss.len() == 0 {
        assert(ss.push(s).first() == s);
        assert(ss.push(s).drop_first() =~= Seq::<Seq<u32>>::empty());
        assert(byte_size_of(ss.push(s)) == 4 * (s.len() + 1) + byte_size_of(
            Seq::<Seq<u32>>::empty(),
        ));
    } else {
        lemma_byte_size_of_push(ss.drop_first(), s);
        assert(ss.push(s).first() == ss.first());
        assert(ss.push(s).drop_first() =~= ss.drop_first().push(s));
    }
}

/// A version of [`BinaryCollection`] with random access to sequences.
///
/// Construction performs one full linear pass through the collection,
/// recording the byte offset of each sequence; afterwards any sequence can
/// be re-parsed directly from its recorded offset.
#[derive(Clone)]
pub struct RandomAccessBinaryCollection<'a> {
    /// The full, already validated byte buffer.
    pub inner: BinaryCollection<'a>,
    /// Byte offset at which each sequence starts.
    pub offsets: Vec<usize>,
}

impl<'a> RandomAccessBinaryCollection<'a> {
    /// The collection is well formed when the buffer decodes fully and the
    /// offset table lists exactly the prefix sums of `4 * (len_i + 1)` —
    /// the byte offset of each sequence.
    pub open spec fn wf(self) -> bool {
        &&& self.inner@.len() % 4 == 0
        &&& parses_fully(self.inner@)
        &&& self.offsets@.len() == sequences_of(self.inner@).len()
        &&& forall|j: int|
            0 <= j < self.offsets@.len() ==> self.offsets@[j] == byte_size_of(
                sequences_of(self.inner@).take(j),
            )
    }
}

impl<'a> View for RandomAccessBinaryCollection<'a> {
    type V = Seq<Seq<u32>>;

    open spec fn view(&self) -> Seq<Seq<u32>> {
        sequences_of(self.inner@)
    }
}

impl<'a> RandomAccessBinaryCollection<'a> {
    /// Builds the offset table with one linear pass. Succeeds exactly when
    /// the buffer length is a multiple of four and every length prefix fits
    /// in the bytes that remain after it; the recorded offsets then equal
    /// the independently computed prefix sums of `sequence_offsets`.
    pub fn try_from(bytes: &'a [u8]) -> (r: Result<Self, InvalidFormat>)
        ensures
            match r {
                Ok(c) => {
                    &&& bytes@.len() % 4 == 0
                    &&& parses_fully(bytes@)
                    &&& c.wf()
                    &&& c.inner@ == bytes@
                    &&& c@ == sequences_of(bytes@)
                    &&& c.offsets@.len() == sequences_of(bytes@).len()
                    &&& forall|j: int|
                        0 <= j < c.offsets@.len() ==> c.offsets@[j] == sequence_offsets(
                            sequences_of(bytes@),
                        )[j]
                },
                Err(e) => {
                    &&& !(bytes@.len() % 4 == 0 && parses_fully(bytes@))
                    &&& e@ == if bytes@.len() % 4 == 0 {
                        None::<Seq<char>>
                    } else {
                        Some(
                            "The byte-length of the collection is not divisible by the element size (4)"@,
                        )
                    }
                },
            },
    {
        let collection = match BinaryCollection::try_from(bytes) {
            Ok(c) => c,
            Err(e) => {
                return Err(e);
            },
        };
        let total: usize = bytes.len();
        let mut iter = collection;
        let mut offsets: Vec<usize> = Vec::new();
        let mut offset: usize = 0;
        let ghost mut parsed: Seq<Seq<u32>> = Seq::empty();
        loop
            invariant
                total == bytes@.len(),
                bytes@.len() % 4 == 0,
                collection@ == bytes@,
                offset <= bytes@.len(),
                iter@ == bytes@.skip(offset as int),
                offset == byte_size_of(parsed),
                parses_fully(bytes@) <==> parses_fully(iter@),
                sequences_of(bytes@) == parsed + sequences_of(iter@),
                offsets@.len() == parsed.len(),
                forall|j: int|
                    0 <= j < offsets@.len() ==> offsets@[j] == byte_size_of(parsed.take(j)),
            decreases bytes@.len() - offset,
        {
            if iter.bytes.len() == 0 {
                proof {
                    assert(sequences_of(iter@) =~= Seq::<Seq<u32>>::empty());
                    assert(sequences_of(bytes@) =~= parsed);
                }
                return Ok(RandomAccessBinaryCollection { inner: collection, offsets });
            }
            let ghost prev = iter@;
            match iter.next() {
                Some(Ok(sequence)) => {
                    proof {
                        lemma_byte_size_of_push(parsed, sequence@);
                        assert(parsed.push(sequence@).take(parsed.len() as int) =~= parsed);
                        assert forall|j: int| 0 <= j < parsed.len() implies parsed.push(
                            sequence@,
                        ).take(j) =~= parsed.take(j) by {}
                        assert(parsed + sequences_of(prev) =~= parsed.push(sequence@)
                            + sequences_of(head_rest(prev)));
                        assert(bytes@.skip(offset as int).skip(4 + 4 * head_len(prev)) =~= bytes@
                            .skip(offset + 4 + 4 * head_len(prev)));
                    }
                    offsets.push(offset);
                    offset = offset + 4 + sequence.length * 4;
                    proof {
                        parsed = parsed.push(sequence@);
                    }
                },
                Some(Err(e)) => {
                    return Err(e);
                },
                None => {
                    proof {
                        assert(false);
                    }
                },
            }
        }
    }

    /// The sequence at `index` starts at the recorded offset, parses, and is
    /// exactly sequence `index` of the decoded collection.
    proof fn lemma_offset_lookup(b: Seq<u8>, i: int)
        requires
            parses_fully(b),
            0 <= i < sequences_of(b).len(),
        ensures
            0 <= byte_size_of(sequences_of(b).take(i)),
            byte_size_of(sequences_of(b).take(i)) <= b.len(),
            head_ok(b.skip(byte_size_of(sequences_of(b).take(i)))),
            head_elems(b.skip(byte_size_of(sequences_of(b).take(i)))) == sequences_of(b)[i],
        decreases i,
    {
        if i == 0 {
            assert(sequences_of(b).take(0) =~= Seq::<Seq<u32>>::empty());
            assert(b.skip(0) =~= b);
        } else {
            let rest = head_rest(b);
            let consumed = 4 + 4 * head_len(b);
            Self::lemma_offset_lookup(rest, i - 1);
            assert(sequences_of(b).take(i) =~= seq![head_elems(b)] + sequences_of(rest).take(
                i - 1,
            ));
            assert(sequences_of(b).take(i).drop_first() =~= sequences_of(rest).take(i - 1));
            assert(byte_size_of(sequences_of(b).take(i)) == consumed + byte_size_of(
                sequences_of(rest).take(i - 1),
            ));
            assert(b.skip(consumed + byte_size_of(sequences_of(rest).take(i - 1))) =~= rest.skip(
                byte_size_of(sequences_of(rest).take(i - 1)),
            ));
        }
    }

    /// Returns an iterator over sequences, starting from the first.
    #[must_use]
    pub fn iter(&self) -> (r: BinaryCollection<'a>)
        ensures
            r@ == self.inner@,
    {
        self.inner
    }

    /// Returns the sequence at the given index. The index must be in
    /// bounds: this is the asserting twin of [`Self::get`].
    #[must_use]
    pub fn at(&self, index: usize) -> (r: BinarySequence<'a>)
        requires
            self.wf(),
            index < self@.len(),
        ensures
            r.wf(),
            r@ == self@[index as int],
    {
        match self.get(index) {
            Some(sequence) => sequence,
            None => {
                proof {
                    assert(false);
                }
                BinarySequence { bytes: self.inner.bytes, length: 0 }
            },
        }
    }

    /// Returns the sequence at the given index, or `None` if out of bounds.
    #[must_use]
    pub fn get(&self, index: usize) -> (r: Option<BinarySequence<'a>>)
        requires
            self.wf(),
        ensures
            match r {
                Some(s) => {
                    &&& index < self@.len()
                    &&& s.wf()
                    &&& s@ == self@[index as int]
                },
                None => index >= self@.len(),
            },
    {
        if index >= self.offsets.len() {
            return None;
        }
        let offset = self.offsets[index];
        proof {
            Self::lemma_offset_lookup(self.inner@, index as int);
        }
        let suffix = slice_subrange(self.inner.bytes, offset, self.inner.bytes.len());
        match get_from(suffix) {
            Ok(sequence) => Some(sequence),
            Err(_) => {
                proof {
                    assert(false);
                }
                None
            },
        }
    }

    /// Returns the number of sequences in the collection.
    #[must_use]
    pub fn len(&self) -> (r: usize)
        ensures
            r == self.offsets@.len(),
            self.wf() ==> r == self@.len(),
    {
        self.offsets.len()
    }

    /// Checks if the collection is empty.
    #[must_use]
    pub fn is_empty(&self) -> (r: bool)
        ensures
            r == (self.offsets@.len() == 0),
            self.wf() ==> r == (self@.len() == 0),
    {
        self.offsets.len() == 0
    }
}

/// Encoded elements take exactly four bytes each.
pub proof fn lemma_encoded_u32s_len(es: Seq<u32>)
    ensures
        encoded_u32s(es).len() == 4 * es.len(),
    decreases es.len(),
{
    lemma_auto_spec_u32_to_from_le_bytes();
    if es.len() > 0 {
        lemma_encoded_u32s_len(es.drop_first());
    }
}

/// Decoding the encoded elements gives the elements back.
pub proof fn lemma_u32s_of_encoded(es: Seq<u32>)
    ensures
        u32s_of(encoded_u32s(es)) == es,
    decreases es.len(),
{
    lemma_auto_spec_u32_to_from_le_bytes();
    lemma_encoded_u32s_len(es);
    if es.len() == 0 {
        assert(u32s_of(encoded_u32s(es)) =~= es);
    } else {
        let head = spec_u32_to_le_bytes(es.first());
        let tail = encoded_u32s(es.drop_first());
        lemma_u32s_of_encoded(es.drop_first());
        lemma_encoded_u32s_len(es.drop_first());
        assert((head + tail).subrange(0, 4) =~= head);
        assert forall|i: int| 1 <= i < es.len() implies u32s_of(encoded_u32s(es))[i] == es[i] by {
            assert((head + tail).subrange(4 * i, 4 * i + 4) =~= tail.subrange(
                4 * (i - 1),
                4 * (i - 1) + 4,
            ));
            assert(u32s_of(tail)[i - 1] == es.drop_first()[i - 1]);
        }
        assert(u32s_of(encoded_u32s(es)) =~= es);
    }
}

/// Round-trip law for the binary-collection layout: a buffer built by
/// encoding the sequences `ss`, each prefixed by its own length, decodes to
/// exactly `ss` — same count, same lengths, same elements.
pub proof fn lemma_collection_round_trip(ss: Seq<Seq<u32>>)
    requires
        forall|i: int| 0 <= i < ss.len() ==> (#[trigger] ss[i]).len() <= u32::MAX,
    ensures
        parses_fully(encoded_collection(ss)),
        sequences_of(encoded_collection(ss)) == ss,
        encoded_collection(ss).len() == byte_size_of(ss),
    decreases ss.len(),
{
    lemma_auto_spec_u32_to_from_le_bytes();
    if ss.len() == 0 {
        assert(sequences_of(encoded_collection(ss)) =~= ss);
    } else {
        let first = ss.first();
        let rest = ss.drop_first();
        let b = encoded_collection(ss);
        let head = encoded_sequence(first.len() as u32, first);
        let tail = encoded_collection(rest);
        assert(forall|i: int| 0 <= i < rest.len() ==> (#[trigger] rest[i]).len() <= u32::MAX);
        lemma_collection_round_trip(rest);
        lemma_encoded_u32s_len(first);
        assert(b =~= head + tail);
        assert(b.subrange(0, 4) =~= spec_u32_to_le_bytes(first.len() as u32));
        assert(head_len(b) == first.len());
        assert(head_ok(b));
        assert(b.subrange(4, 4 + 4 * head_len(b)) =~= encoded_u32s(first));
        lemma_u32s_of_encoded(first);
        assert(head_elems(b) == first);
        assert(head_rest(b) =~= tail);
        assert(sequences_of(b) =~= seq![first] + sequences_of(tail));
        assert(sequences_of(b) =~= ss);
    }
}

/// Re-encoding the decoded elements of an aligned buffer gives the buffer
/// back byte for byte.
pub proof fn lemma_encoded_of_u32s(b: Seq<u8>)
    requires
        b.len() % 4 == 0,
    ensures
        encoded_u32s(u32s_of(b)) == b,
    decreases b.len(),
{
    lemma_auto_spec_u32_to_from_le_bytes();
    if b.len() == 0 {
        assert(u32s_of(b) =~= Seq::<u32>::empty());
        assert(encoded_u32s(u32s_of(b)) =~= b);
    } else {
        let rest = b.skip(4);
        lemma_encoded_of_u32s(rest);
        assert(u32s_of(b).drop_first() =~= u32s_of(rest)) by {
            assert forall|i: int| 0 <= i < u32s_of(b).len() - 1 implies u32s_of(b).drop_first()[i]
                == u32s_of(rest)[i] by {
                assert(b.subrange(4 * (i + 1), 4 * (i + 1) + 4) =~= rest.subrange(
                    4 * i,
                    4 * i + 4,
                ));
            }
        }
        assert(u32s_of(b).first() == spec_u32_from_le_bytes(b.subrange(0, 4)));
        assert(spec_u32_to_le_bytes(spec_u32_from_le_bytes(b.subrange(0, 4))) == b.subrange(0, 4));
        assert(encoded_u32s(u32s_of(b)) =~= b.subrange(0, 4) + rest);
        assert(b.subrange(0, 4) + rest =~= b);
    }
}

/// Appending one sequence to a collection appends its encoding.
pub proof fn lemma_encoded_collection_push(ss: Seq<Seq<u32>>, s: Seq<u32>)
    ensures
        encoded_collection(ss.push(s)) == encoded_collection(ss) + encoded_sequence(
            s.len() as u32,
            s,
        ),
    decreases ss.len(),
{
    if ss.len() == 0 {
        assert(ss.push(s).first() == s);
        assert(ss.push(s).drop_first() =~= Seq::<Seq<u32>>::empty());
        assert(encoded_collection(Seq::<Seq<u32>>::empty()) == Seq::<u8>::empty());
        assert(encoded_collection(ss.push(s)) =~= encoded_sequence(s.len() as u32, s)
            + Seq::<u8>::empty());
        assert(encoded_sequence(s.len() as u32, s) + Seq::<u8>::empty() =~= encoded_sequence(
            s.len() as u32,
            s,
        ));
        assert(encoded_collection(ss) + encoded_sequence(s.len() as u32, s) =~= encoded_sequence(
            s.len() as u32,
            s,
        ));
    } else {
        lemma_encoded_collection_push(ss.drop_first(), s);
        assert(ss.push(s).first() == ss.first());
        assert(ss.push(s).drop_first() =~= ss.drop_first().push(s));
        assert(encoded_collection(ss.push(s)) =~= encoded_collection(ss) + encoded_sequence(
            s.len() as u32,
            s,
        ));
    }
}

/// Every decoded sequence is as long as its 32-bit length prefix declared.
pub proof fn lemma_parsed_lengths(b: Seq<u8>)
    requires
        parses_fully(b),
    ensures
        forall|i: int|
            0 <= i < sequences_of(b).len() ==> (#[trigger] sequences_of(b)[i]).len() <= u32::MAX,
    decreases b.len(),
{
    if b.len() != 0 {
        lemma_parsed_lengths(head_rest(b));
        assert forall|i: int| 0 <= i < sequences_of(b).len() implies (#[trigger] sequences_of(
            b,
        )[i]).len() <= u32::MAX by {
            if i == 0 {
                assert(sequences_of(b)[0] == head_elems(b));
                assert(head_elems(b).len() == head_len(b));
            } else {
                assert(sequences_of(b)[i] == sequences_of(head_rest(b))[i - 1]);
            }
        }
    }
}

/// The sequences picked out of `ss` at the positions in `order`, in that
/// order.
pub open spec fn picked(ss: Seq<Seq<u32>>, order: Seq<usize>) -> Seq<Seq<u32>> {
    Seq::new(order.len(), |i: int| ss[order[i] as int])
}

/// Streams the sequences of `collection` into `out` in the order given:
/// sequence `order[i]` of the collection becomes sequence `i` of the
/// output, re-encoded with its own length prefix.
pub fn reorder(
    collection: &RandomAccessBinaryCollection<'_>,
    order: &Vec<usize>,
    out: &mut Vec<u8>,
)
    requires
        collection.wf(),
        forall|k: int| 0 <= k < order@.len() ==> order@[k] < collection@.len(),
    ensures
        final(out)@ == old(out)@ + encoded_collection(picked(collection@, order@)),
{
    proof {
        lemma_parsed_lengths(collection.inner@);
        assert(picked(collection@, order@.take(0)) =~= Seq::<Seq<u32>>::empty());
        assert(out@ =~= old(out)@ + encoded_collection(picked(collection@, order@.take(0))));
    }
    let n = order.len();
    let mut i: usize = 0;
    while i < n
        invariant
            collection.wf(),
            forall|k: int| 0 <= k < order@.len() ==> order@[k] < collection@.len(),
            forall|k: int|
                0 <= k < collection@.len() ==> (#[trigger] collection@[k]).len() <= u32::MAX,
            n == order@.len(),
            0 <= i <= n,
            out@ == old(out)@ + encoded_collection(picked(collection@, order@.take(i as int))),
        decreases n - i,
    {
        let index = order[i];
        let sequence = collection.at(index);
        let mut prefix = u32_to_le_bytes(sequence.length as u32);
        out.append(&mut prefix);
        let mut body = vstd::slice::slice_to_vec(sequence.bytes());
        out.append(&mut body);
        proof {
            let s = collection@[index as int];
            assert(sequence@ =~= u32s_of(sequence.bytes@));
            lemma_encoded_of_u32s(sequence.bytes@);
            assert(encoded_u32s(s) == sequence.bytes@);
            assert(sequence.length as u32 == s.len() as u32);
            lemma_encoded_collection_push(picked(collection@, order@.take(i as int)), s);
            assert(picked(collection@, order@.take(i as int)).push(s) =~= picked(
                collection@,
                order@.take(i as int + 1),
            ));
            assert(out@ =~= old(out)@ + encoded_collection(
                picked(collection@, order@.take(i as int + 1)),
            ));
        }
        i = i + 1;
    }
    proof {
        assert(order@.take(n as int) =~= order@);
    }
}

/// Yields the elements of a [`BinarySequence`] in order.
pub struct BinarySequenceIterator<'a> {
    /// The sequence walked over.
    pub sequence: BinarySequence<'a>,
    /// Position of the next element to yield.
    pub index: usize,
}

impl<'a> BinarySequenceIterator<'a> {
    /// Returns the next element, or `None` once all readable elements have
    /// been yielded.
    pub fn next(&mut self) -> (r: Option<u32>)
        ensures
            old(self).index < old(self).sequence@.len() ==> {
                &&& r == Some(old(self).sequence@[old(self).index as int])
                &&& final(self).index == old(self).index + 1
                &&& final(self).sequence == old(self).sequence
            },
            old(self).index >= old(self).sequence@.len() ==> {
                &&& r is None
                &&& *final(self) == *old(self)
            },
    {
        let r = self.sequence.get(self.index);
        if r.is_some() {
            self.index = self.index + 1;
        }
        r
    }
}

} // verus!
