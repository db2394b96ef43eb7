//! The lexicon layout: a count, a table of cumulative byte offsets (all
//! 8-byte little-endian), then the raw bytes of all entries back-to-back.
//! Entry `i` spans `offsets[i]..offsets[i + 1]` of the payload area.
use vstd::prelude::*;

verus! {

use vstd::bytes::spec_u64_from_le_bytes;
use vstd::bytes::spec_u64_to_le_bytes;
use vstd::bytes::u64_from_le_bytes;
use vstd::bytes::u64_to_le_bytes;
use vstd::bytes::lemma_auto_spec_u64_to_from_le_bytes;
use vstd::slice::slice_subrange;

/// The first `k` payloads joined back-to-back.
pub open spec fn payload_prefix(items: Seq<Seq<u8>>, k: int) -> Seq<u8>
    decreases k,
{
    if k <= 0 {
        Seq::empty()
    } else {
        payload_prefix(items, k - 1) + items[k - 1]
    }
}

/// Byte offset of payload `i` within the payload area: the total length of
/// the payloads before it.
pub open spec fn payload_offset(items: Seq<Seq<u8>>, i: int) -> int {
    payload_prefix(items, i).len() as int
}

/// The first `k` entries of the offset table, 8 bytes each.
pub open spec fn offset_entries(items: Seq<Seq<u8>>, k: int) -> Seq<u8>
    decreases k,
{
    if k <= 0 {
        Seq::empty()
    } else {
        offset_entries(items, k - 1) + spec_u64_to_le_bytes(payload_offset(items, k - 1) as u64)
    }
}

/// The encoded form of a payload vector: the count, `count + 1` cumulative
/// offsets, then the payload bytes.
pub open spec fn pv_encode(items: Seq<Seq<u8>>) -> Seq<u8> {
    spec_u64_to_le_bytes(items.len() as u64) + offset_entries(items, items.len() as int + 1)
        + payload_prefix(items, items.len() as int)
}

/// The element count a buffer declares; zero when the buffer cannot even
/// hold the count field.
pub open spec fn pv_len(d: Seq<u8>) -> u64 {
    if d.len() >= 8 {
        spec_u64_from_le_bytes(d.subrange(0, 8))
    } else {
        0
    }
}

/// The `i`-th stored offset (the one used as the start of payload `i`).
pub open spec fn pv_off(d: Seq<u8>, i: int) -> int
    recommends
        8 * (i + 2) <= d.len(),
{
    spec_u64_from_le_bytes(d.subrange(8 * (i + 1), 8 * (i + 1) + 8)) as int
}

/// The payload a buffer yields at `index`: `None` when `index` is out of
/// range or any needed read would leave the buffer.
pub open spec fn pv_get(d: Seq<u8>, index: int) -> Option<Seq<u8>> {
    let count = pv_len(d) as int;
    if 0 <= index < count {
        if 8 * (index + 1) + 16 <= d.len() {
            let base = 8 * (count + 2);
            let start = base + pv_off(d, index);
            let end = base + pv_off(d, index + 1);
            if start <= end && end <= d.len() {
                Some(d.subrange(start, end))
            } else {
                None
            }
        } else {
            None
        }
    } else {
        None
    }
}

/// A read-only view over payload-vector bytes, owned elsewhere (for example
/// a mapped file). Decoding is bounds-checked throughout: no read leaves
/// the buffer whatever the buffer holds.
#[derive(Clone, Copy)]
pub struct PayloadSlice<'a> {
    /// The underlying encoded bytes.
    pub data: &'a [u8],
}

impl<'a> View for PayloadSlice<'a> {
    type V = Seq<u8>;

    open spec fn view(&self) -> Seq<u8> {
        self.data@
    }
}

impl<'a> PayloadSlice<'a> {
    /// Constructs a new slice over the given underlying data.
    #[must_use]
    pub fn new(data: &'a [u8]) -> (r: Self)
        ensures
            r@ == data@,
    {
        PayloadSlice { data }
    }

    /// Appends the underlying memory to the output buffer unchanged.
    pub fn write(&self, writer: &mut Vec<u8>)
        ensures
            final(writer)@ == old(writer)@ + self@,
    {
        let mut copy = vstd::slice::slice_to_vec(self.data);
        writer.append(&mut copy);
    }

    /// Reads the 8-byte little-endian integer at byte position `offset`.
    fn int_at(&self, offset: usize) -> (r: u64)
        requires
            offset + 8 <= self@.len(),
        ensures
            r == spec_u64_from_le_bytes(self@.subrange(offset as int, offset as int + 8)),
    {
        let n = self.data.len();
        proof {
            assert(offset + 8 <= n);
        }
        u64_from_le_bytes(slice_subrange(self.data, offset, offset + 8))
    }

    /// Returns the element at position `index`, or `None` if `index` is out
    /// of bounds or the buffer is too short to resolve it.
    #[must_use]
    pub fn get(&self, index: u64) -> (r: Option<&'a [u8]>)
        ensures
            match r {
                Some(s) => pv_get(self@, index as int) == Some(s@),
                None => pv_get(self@, index as int) is None,
            },
    {
        let count = self.len();
        if index >= count {
            return None;
        }
        let dl = self.data.len() as u64;
        if dl < 16 {
            return None;
        }
        if index + 1 > (dl - 16) / 8 {
            proof {
                assert(8 * (index as int + 1) + 16 > self@.len());
            }
            return None;
        }
        if count > dl / 8 - 2 {
            proof {
                assert(8 * (pv_len(self@) as int + 2) > self@.len());
            }
            return None;
        }
        let base = (count + 2) * 8;
        let opos = ((index + 1) * 8) as usize;
        let off_start = self.int_at(opos);
        let off_end = self.int_at(opos + 8);
        if off_end > dl - base {
            return None;
        }
        if off_start > off_end {
            return None;
        }
        let start = (base + off_start) as usize;
        let end = (base + off_end) as usize;
        Some(slice_subrange(self.data, start, end))
    }

    /// Returns the declared number of elements; zero when the buffer is too
    /// short to hold a count.
    #[must_use]
    pub fn len(&self) -> (r: u64)
        ensures
            r == pv_len(self@),
    {
        if self.data.len() < 8 {
            0
        } else {
            self.int_at(0)
        }
    }

    /// Checks if the slice is empty.
    #[must_use]
    pub fn is_empty(&self) -> (r: bool)
        ensures
            r == (pv_len(self@) == 0),
    {
        self.len() == 0
    }

    /// Returns an iterator over all elements.
    #[must_use]
    pub fn iter(&self) -> (r: PayloadIter<'a>)
        ensures
            r.slice@ == self@,
            r.index == 0,
            r.length == pv_len(self@),
    {
        PayloadIter { slice: *self, index: 0, length: self.len() }
    }

    /// Returns the element at position `index`; the index must resolve.
    /// This is the asserting twin of [`Self::get`].
    #[must_use]
    pub fn at(&self, index: u64) -> (r: &'a [u8])
        requires
            pv_get(self@, index as int) is Some,
        ensures
            Some(r@) == pv_get(self@, index as int),
    {
        match self.get(index) {
            Some(payload) => payload,
            None => {
                proof {
                    assert(false);
                }
                self.data
            },
        }
    }
}

/// Iterator over the elements of a [`PayloadSlice`].
pub struct PayloadIter<'a> {
    /// The slice walked over.
    pub slice: PayloadSlice<'a>,
    /// Position of the next element to yield.
    pub index: u64,
    /// The element count recorded when the iterator was made.
    pub length: u64,
}

impl<'a> PayloadIter<'a> {
    /// Returns the element at the current position and advances, or returns
    /// `None` at the end (or when the buffer fails to resolve the position).
    pub fn next(&mut self) -> (r: Option<&'a [u8]>)
        ensures
            final(self).slice == old(self).slice,
            final(self).length == old(self).length,
            old(self).index >= old(self).length ==> r is None && final(self).index == old(
                self,
            ).index,
            old(self).index < old(self).length ==> {
                &&& final(self).index == old(self).index + 1
                &&& match r {
                    Some(s) => pv_get(old(self).slice@, old(self).index as int) == Some(s@),
                    None => pv_get(old(self).slice@, old(self).index as int) is None,
                }
            },
    {
        if self.index >= self.length {
            None
        } else {
            let item = self.slice.get(self.index);
            self.index = self.index + 1;
            item
        }
    }
}

/// Owning variant of [`PayloadSlice`]: holds the encoded bytes in memory.
/// Useful for building the structure before writing it out.
#[derive(Clone, Debug)]
pub struct PayloadVector {
    /// The encoded bytes.
    pub data: Vec<u8>,
}

impl View for PayloadVector {
    type V = Seq<u8>;

    open spec fn view(&self) -> Seq<u8> {
        self.data@
    }
}

impl PayloadVector {
    /// Encodes the given payloads: count, cumulative offsets, then the
    /// payload bytes back-to-back.
    pub fn from_payloads(items: &Vec<Vec<u8>>) -> (r: Self)
        requires
            8 * (items@.len() + 2) + payload_prefix(
                items@.map_values(|v: Vec<u8>| v@),
                items@.len() as int,
            ).len() <= usize::MAX,
        ensures
            r@ == pv_encode(items@.map_values(|v: Vec<u8>| v@)),
    {
        let ghost model = items@.map_values(|v: Vec<u8>| v@);
        let count = items.len();
        let mut data: Vec<u8> = Vec::new();
        let mut word = u64_to_le_bytes(count as u64);
        data.append(&mut word);
        let ghost header = data@;

        // Offset table: entry `i` is the total length of payloads before `i`.
        let mut offset: u64 = 0;
        let mut word0 = u64_to_le_bytes(offset);
        data.append(&mut word0);
        proof {
            assert(payload_prefix(model, 0) =~= Seq::<u8>::empty());
            assert(offset_entries(model, 0) =~= Seq::<u8>::empty());
            assert(offset_entries(model, 1) =~= Seq::<u8>::empty() + spec_u64_to_le_bytes(0u64));
            assert(data@ =~= header + offset_entries(model, 1));
        }
        let mut i: usize = 0;
        while i < count
            invariant
                count == items@.len(),
                model == items@.map_values(|v: Vec<u8>| v@),
                8 * (model.len() + 2) + payload_prefix(model, model.len() as int).len()
                    <= usize::MAX,
                0 <= i <= count,
                offset == payload_offset(model, i as int),
                data@ == header + offset_entries(model, i as int + 1),
            decreases count - i,
        {
            proof {
                assert(model[i as int] == items@[i as int]@);
                lemma_payload_prefix_len_monotonic(model, i as int + 1, model.len() as int);
                assert(payload_prefix(model, i as int + 1).len() == offset + model[i as int].len());
            }
            offset = offset + (items[i].len() as u64);
            let mut word_i = u64_to_le_bytes(offset);
            data.append(&mut word_i);
            proof {
                assert(data@ =~= header + offset_entries(model, i as int + 2));
            }
            i = i + 1;
        }

        let ghost with_table = data@;
        proof {
            assert(data@ =~= with_table + payload_prefix(model, 0));
        }

        // Payload area.
        let mut j: usize = 0;
        while j < count
            invariant
                count == items@.len(),
                model == items@.map_values(|v: Vec<u8>| v@),
                0 <= j <= count,
                data@ == with_table + payload_prefix(model, j as int),
            decreases count - j,
        {
            let mut payload = items[j].clone();
            proof {
                assert(model[j as int] == items@[j as int]@);
                assert(payload@ =~= items@[j as int]@);
            }
            data.append(&mut payload);
            proof {
                assert(data@ =~= with_table + payload_prefix(model, j as int + 1));
            }
            j = j + 1;
        }
        proof {
            assert(pv_encode(model) =~= header + offset_entries(model, model.len() as int + 1)
                + payload_prefix(model, model.len() as int));
        }
        PayloadVector { data }
    }

    /// The borrowed view over this vector's bytes.
    #[must_use]
    pub fn as_slice(&self) -> (r: PayloadSlice<'_>)
        ensures
            r@ == self@,
    {
        PayloadSlice { data: self.data.as_slice() }
    }

    /// Appends the encoded bytes to the output buffer unchanged.
    pub fn write(&self, writer: &mut Vec<u8>)
        ensures
            final(writer)@ == old(writer)@ + self@,
    {
        self.as_slice().write(writer)
    }

    /// Returns the element at position `index`, or `None` if out of bounds.
    #[must_use]
    pub fn get(&self, index: u64) -> (r: Option<&[u8]>)
        ensures
            match r {
                Some(s) => pv_get(self@, index as int) == Some(s@),
                None => pv_get(self@, index as int) is None,
            },
    {
        self.as_slice().get(index)
    }

    /// Returns the declared number of elements.
    #[must_use]
    pub fn len(&self) -> (r: u64)
        ensures
            r == pv_len(self@),
    {
        self.as_slice().len()
    }

    /// Checks if the vector is empty.
    #[must_use]
    pub fn is_empty(&self) -> (r: bool)
        ensures
            r == (pv_len(self@) == 0),
    {
        self.as_slice().is_empty()
    }

    /// Returns an iterator over all elements.
    #[must_use]
    pub fn iter(&self) -> (r: PayloadIter<'_>)
        ensures
            r.slice@ == self@,
            r.index == 0,
            r.length == pv_len(self@),
    {
        self.as_slice().iter()
    }

    /// Returns the element at position `index`; the index must resolve.
    #[must_use]
    pub fn at(&self, index: u64) -> (r: &[u8])
        requires
            pv_get(self@, index as int) is Some,
        ensures
            Some(r@) == pv_get(self@, index as int),
    {
        self.as_slice().at(index)
    }
}

/// The offset table takes eight bytes per entry.
pub proof fn lemma_offset_entries_len(items: Seq<Seq<u8>>, k: int)
    requires
        k >= 0,
    ensures
        offset_entries(items, k).len() == 8 * k,
    decreases k,
{
    lemma_auto_spec_u64_to_from_le_bytes();
    if k > 0 {
        lemma_offset_entries_len(items, k - 1);
    }
}

/// Entry `j` of the offset table encodes the offset of payload `j`.
pub proof fn lemma_offset_entry_extract(items: Seq<Seq<u8>>, k: int, j: int)
    requires
        0 <= j < k,
    ensures
        offset_entries(items, k).subrange(8 * j, 8 * j + 8) == spec_u64_to_le_bytes(
            payload_offset(items, j) as u64,
        ),
    decreases k,
{
    lemma_auto_spec_u64_to_from_le_bytes();
    lemma_offset_entries_len(items, k - 1);
    if j == k - 1 {
        assert(offset_entries(items, k).subrange(8 * j, 8 * j + 8) =~= spec_u64_to_le_bytes(
            payload_offset(items, j) as u64,
        ));
    } else {
        lemma_offset_entry_extract(items, k - 1, j);
        assert(offset_entries(items, k).subrange(8 * j, 8 * j + 8) =~= offset_entries(
            items,
            k - 1,
        ).subrange(8 * j, 8 * j + 8));
    }
}

/// Payload `i` sits between its offset and the next inside any prefix of
/// the payload area long enough to contain it.
pub proof fn lemma_payload_extract(items: Seq<Seq<u8>>, k: int, i: int)
    requires
        0 <= i < k <= items.len(),
    ensures
        payload_prefix(items, k).subrange(
            payload_offset(items, i),
            payload_offset(items, i) + items[i].len(),
        ) == items[i],
    decreases k,
{
    if k == i + 1 {
        assert(payload_prefix(items, k).subrange(
            payload_offset(items, i),
            payload_offset(items, i) + items[i].len(),
        ) =~= items[i]);
    } else {
        lemma_payload_extract(items, k - 1, i);
        lemma_payload_prefix_len_monotonic(items, i + 1, k - 1);
        assert(payload_offset(items, i) + items[i].len() == payload_offset(items, i + 1));
        assert(payload_prefix(items, k).subrange(
            payload_offset(items, i),
            payload_offset(items, i) + items[i].len(),
        ) =~= payload_prefix(items, k - 1).subrange(
            payload_offset(items, i),
            payload_offset(items, i) + items[i].len(),
        ));
    }
}

/// Round-trip law for the payload-vector layout: the encoding of any list
/// of byte strings (empty strings and the empty list included) declares the
/// same count, yields every entry back unchanged by position, and yields
/// `None` at the count and beyond.
pub proof fn lemma_payload_vector_round_trip(items: Seq<Seq<u8>>)
    requires
        8 * (items.len() + 2) + payload_prefix(items, items.len() as int).len() <= usize::MAX,
    ensures
        pv_len(pv_encode(items)) == items.len(),
        forall|i: int| 0 <= i < items.len() ==> pv_get(pv_encode(items), i) == Some(items[i]),
        forall|i: int| i >= items.len() ==> pv_get(pv_encode(items), i) is None,
{
    lemma_auto_spec_u64_to_from_le_bytes();
    let count = items.len() as int;
    let d = pv_encode(items);
    let table = offset_entries(items, count + 1);
    let payloads = payload_prefix(items, count);
    lemma_offset_entries_len(items, count + 1);
    assert(d.len() == 8 + 8 * (count + 1) + payloads.len());
    assert(d.subrange(0, 8) =~= spec_u64_to_le_bytes(items.len() as u64));
    assert(pv_len(d) == items.len());
    assert forall|j: int| 0 <= j <= count implies {
        &&& pv_off(d, j) == payload_offset(items, j)
        &&& 0 <= payload_offset(items, j) <= payloads.len()
    } by {
        lemma_offset_entry_extract(items, count + 1, j);
        assert(d.subrange(8 * (j + 1), 8 * (j + 1) + 8) =~= table.subrange(8 * j, 8 * j + 8));
        lemma_payload_prefix_len_monotonic(items, j, count);
        assert(payload_offset(items, j) <= usize::MAX);
    }
    assert forall|i: int| 0 <= i < items.len() implies pv_get(d, i) == Some(items[i]) by {
        let base = 8 * (count + 2);
        assert(8 * (i + 1) + 16 <= d.len());
        assert(payload_offset(items, i) + items[i].len() == payload_offset(items, i + 1));
        lemma_payload_extract(items, count, i);
        assert(d.subrange(base + payload_offset(items, i), base + payload_offset(items, i + 1))
            =~= payloads.subrange(payload_offset(items, i), payload_offset(items, i + 1)));
        assert(pv_get(d, i) == Some(items[i]));
    }
}

/// A longer prefix of the payload area is never shorter.
pub proof fn lemma_payload_prefix_len_monotonic(items: Seq<Seq<u8>>, a: int, b: int)
    requires
        a <= b,
    ensures
        payload_prefix(items, a).len() <= payload_prefix(items, b).len(),
    decreases b - a,
{
    if a < b {
        lemma_payload_prefix_len_monotonic(items, a, b - 1);
    }
}

} // verus!
