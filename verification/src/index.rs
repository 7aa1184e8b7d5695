//! The blob stream and its index.
//!
//! A blob is `{ data[..], index[..], offset of the index in the stream }`.
//!
//! An item has data, the commands recorded by a draw target, and extra data,
//! such as the font keys that the commands use. The index holds one record per
//! item, `{ end, extra_end, bounds }`:
//!
//! - `end` is the offset of the end of the item's data. The data starts where
//!   the last item's extra data ends, or at the start of the stream.
//! - `extra_end` is the offset of the end of the item's extra data, which
//!   starts at `end`.
//! - `bounds` is four integers, `{ x1, y1, x2, y2 }`.
//!
//! The offsets in the index should be monotonically increasing. Offsets are
//! words.

use vstd::arithmetic::div_mod::{
    lemma_basic_div, lemma_div_plus_one, lemma_mod_sub_multiples_vanish, lemma_small_mod,
};
use vstd::layout::layout_of_primitives;
use vstd::prelude::*;

use crate::bytes::{
    law_value_of_bytes, lemma_uint_bytes_len, lemma_uint_value_bound, lemma_word_size, to_usize,
    u32_value, uint_bytes, uint_value, word_size, word_value, ByteOrder,
};
use crate::geometry::Box2d;
use crate::reader::BufReader;

verus! {

/// An item of a blob, as its index describes it.
#[derive(Clone, Copy, Debug, PartialEq, Eq, Structural)]
pub struct Entry {
    pub bounds: Box2d,
    pub begin: usize,
    pub end: usize,
    pub extra_end: usize,
}

/// The number of bytes of an index record.
pub open spec fn entry_size() -> nat {
    2 * word_size() + 16
}

/// The item that an index record describes, given where the item begins.
pub open spec fn decode_entry(order: ByteOrder, record: Seq<u8>, begin: usize) -> Entry {
    let w = word_size() as int;
    Entry {
        bounds: Box2d {
            x1: u32_value(order, record.subrange(2 * w, 2 * w + 4)),
            y1: u32_value(order, record.subrange(2 * w + 4, 2 * w + 8)),
            x2: u32_value(order, record.subrange(2 * w + 8, 2 * w + 12)),
            y2: u32_value(order, record.subrange(2 * w + 12, 2 * w + 16)),
        },
        begin,
        end: word_value(order, record.subrange(0, w)),
        extra_end: word_value(order, record.subrange(w, 2 * w)),
    }
}

/// The items that the records in `index` describe, the first of which begins
/// at `begin`.
pub open spec fn entries_from(order: ByteOrder, index: Seq<u8>, begin: usize) -> Seq<Entry>
    decreases index.len(),
{
    if index.len() < entry_size() {
        Seq::empty()
    } else {
        let entry = decode_entry(order, index.take(entry_size() as int), begin);
        seq![entry] + entries_from(order, index.skip(entry_size() as int), entry.extra_end)
    }
}

/// The offset of the index, which the last word of a blob holds.
pub open spec fn index_offset(order: ByteOrder, blob: Seq<u8>) -> nat {
    uint_value(order, blob.skip(blob.len() - word_size()))
}

/// The last word of `blob` is the offset of an index.
pub open spec fn has_index(order: ByteOrder, blob: Seq<u8>) -> bool {
    &&& word_size() <= blob.len()
    &&& index_offset(order, blob) <= blob.len() - word_size()
}

/// The index of a blob.
pub open spec fn index_bytes(order: ByteOrder, blob: Seq<u8>) -> Seq<u8> {
    blob.subrange(index_offset(order, blob) as int, blob.len() - word_size())
}

/// `blob` has an index, made of whole records.
pub open spec fn is_blob(order: ByteOrder, blob: Seq<u8>) -> bool {
    &&& has_index(order, blob)
    &&& index_bytes(order, blob).len() % entry_size() == 0
}

/// The items of a blob.
pub open spec fn blob_entries(order: ByteOrder, blob: Seq<u8>) -> Seq<Entry> {
    entries_from(order, index_bytes(order, blob), 0)
}

/// Whole records stay whole when one is taken away.
proof fn lemma_whole_records(len: nat)
    requires
        len % entry_size() == 0,
        len > 0,
    ensures
        len >= entry_size(),
        ((len - entry_size()) as nat) % entry_size() == 0,
{
    lemma_word_size();
    if len < entry_size() {
        lemma_small_mod(len, entry_size());
    }
    lemma_mod_sub_multiples_vanish(len as int, entry_size() as int);
}

proof fn lemma_short_index_is_empty(len: nat)
    requires
        len % entry_size() == 0,
        len < entry_size(),
    ensures
        len == 0,
{
    lemma_small_mod(len, entry_size());
}

/// There is one item for each record.
pub proof fn law_one_entry_per_record(order: ByteOrder, index: Seq<u8>, begin: usize)
    requires
        index.len() % entry_size() == 0,
    ensures
        entries_from(order, index, begin).len() * entry_size() == index.len(),
    decreases index.len(),
{
    lemma_word_size();
    if index.len() < entry_size() {
        lemma_short_index_is_empty(index.len());
        assert(0 * entry_size() == 0);
    } else {
        lemma_whole_records(index.len());
        let entry = decode_entry(order, index.take(entry_size() as int), begin);
        let rest = entries_from(order, index.skip(entry_size() as int), entry.extra_end);
        law_one_entry_per_record(order, index.skip(entry_size() as int), entry.extra_end);
        assert(entries_from(order, index, begin).len() == rest.len() + 1);
        assert((rest.len() + 1) * entry_size() == rest.len() * entry_size() + entry_size())
            by (nonlinear_arith);
    }
}

/// The first item begins at `begin`, and each other one where the last one's
/// extra data ends.
pub proof fn law_items_are_adjacent(order: ByteOrder, index: Seq<u8>, begin: usize, i: int)
    requires
        0 <= i < entries_from(order, index, begin).len(),
    ensures
        entries_from(order, index, begin)[i].begin == if i == 0 {
            begin
        } else {
            entries_from(order, index, begin)[i - 1].extra_end
        },
    decreases index.len(),
{
    lemma_word_size();
    if i > 0 {
        let entry = decode_entry(order, index.take(entry_size() as int), begin);
        law_items_are_adjacent(order, index.skip(entry_size() as int), entry.extra_end, i - 1);
    }
}

/// There are as many items as whole records fit into the index. A record is
/// two words and four numbers of four bytes.
pub proof fn law_entry_count(order: ByteOrder, index: Seq<u8>, begin: usize)
    ensures
        entries_from(order, index, begin).len() == index.len() / (2 * word_size() + 16),
    decreases index.len(),
{
    let size = 2 * word_size() + 16;
    lemma_word_size();
    if index.len() < size {
        lemma_basic_div(index.len() as int, size as int);
    } else {
        let entry = decode_entry(order, index.take(entry_size() as int), begin);
        law_entry_count(order, index.skip(entry_size() as int), entry.extra_end);
        lemma_div_plus_one((index.len() - size) as int, size as int);
    }
}

/// The layout of an index: record `i` starts after `i` records. It is the end
/// of the item's data and the end of its extra data, a word each, and then
/// `x1`, `y1`, `x2` and `y2`, four bytes each. The item begins at the number
/// that the record before holds as the end of the extra data.
pub proof fn law_layout_of_an_index(order: ByteOrder, index: Seq<u8>, begin: usize, i: int)
    requires
        0 <= i < entries_from(order, index, begin).len(),
    ensures
        ({
            let w = word_size() as int;
            let at = i * (2 * w + 16);
            let entry = entries_from(order, index, begin)[i];
            &&& at + 2 * w + 16 <= index.len()
            &&& entry.end == uint_value(order, index.subrange(at, at + w))
            &&& entry.extra_end == uint_value(order, index.subrange(at + w, at + 2 * w))
            &&& entry.bounds.x1 == uint_value(order, index.subrange(at + 2 * w, at + 2 * w + 4))
            &&& entry.bounds.y1 == uint_value(order, index.subrange(at + 2 * w + 4, at + 2 * w + 8))
            &&& entry.bounds.x2 == uint_value(order, index.subrange(at + 2 * w + 8, at + 2 * w + 12))
            &&& entry.bounds.y2 == uint_value(
                order,
                index.subrange(at + 2 * w + 12, at + 2 * w + 16),
            )
            &&& entry.begin == if i == 0 {
                begin as nat
            } else {
                uint_value(order, index.subrange(at - w - 16, at - 16))
            }
        }),
    decreases i,
{
    let w = word_size() as int;
    let size = 2 * w + 16;
    let first = index.take(size);
    let rest = index.skip(size);
    lemma_word_size();
    lemma_fields_of_a_record(order, first, begin);
    let entry = decode_entry(order, first, begin);
    if i == 0 {
        assert(0 * size == 0);
        assert(first.subrange(0, w) =~= index.subrange(0, w));
        assert(first.subrange(w, 2 * w) =~= index.subrange(w, 2 * w));
        assert(first.subrange(2 * w, 2 * w + 4) =~= index.subrange(2 * w, 2 * w + 4));
        assert(first.subrange(2 * w + 4, 2 * w + 8) =~= index.subrange(2 * w + 4, 2 * w + 8));
        assert(first.subrange(2 * w + 8, 2 * w + 12) =~= index.subrange(2 * w + 8, 2 * w + 12));
        assert(first.subrange(2 * w + 12, 2 * w + 16) =~= index.subrange(2 * w + 12, 2 * w + 16));
    } else {
        law_layout_of_an_index(order, rest, entry.extra_end, i - 1);
        let at = (i - 1) * size;
        assert(i * size == at + size) by (nonlinear_arith)
            requires
                at == (i - 1) * size,
        ;
        assert(at >= 0) by (nonlinear_arith)
            requires
                at == (i - 1) * size,
                i >= 1,
                size >= 0,
        ;
        let here = i * size;
        assert(rest.subrange(at, at + w) =~= index.subrange(here, here + w));
        assert(rest.subrange(at + w, at + 2 * w) =~= index.subrange(here + w, here + 2 * w));
        assert(rest.subrange(at + 2 * w, at + 2 * w + 4) =~= index.subrange(
            here + 2 * w,
            here + 2 * w + 4,
        ));
        assert(rest.subrange(at + 2 * w + 4, at + 2 * w + 8) =~= index.subrange(
            here + 2 * w + 4,
            here + 2 * w + 8,
        ));
        assert(rest.subrange(at + 2 * w + 8, at + 2 * w + 12) =~= index.subrange(
            here + 2 * w + 8,
            here + 2 * w + 12,
        ));
        assert(rest.subrange(at + 2 * w + 12, at + 2 * w + 16) =~= index.subrange(
            here + 2 * w + 12,
            here + 2 * w + 16,
        ));
        let entries = entries_from(order, index, begin);
        assert(entries[i] == entries_from(order, rest, entry.extra_end)[i - 1]);
        if i == 1 {
            assert(0 * size == 0);
            assert(first.subrange(w, 2 * w) =~= index.subrange(w, 2 * w));
        } else {
            assert(rest.subrange(at - w - 16, at - 16) =~= index.subrange(
                here - w - 16,
                here - 16,
            )) by {
                assert(at >= size) by (nonlinear_arith)
                    requires
                        at == (i - 1) * size,
                        i >= 2,
                        size >= 0,
                ;
            }
        }
    }
}

proof fn lemma_fields_of_a_record(order: ByteOrder, record: Seq<u8>, begin: usize)
    requires
        record.len() >= entry_size(),
    ensures
        ({
            let w = word_size() as int;
            let entry = decode_entry(order, record, begin);
            &&& entry.begin == begin
            &&& entry.end == uint_value(order, record.subrange(0, w))
            &&& entry.extra_end == uint_value(order, record.subrange(w, 2 * w))
            &&& entry.bounds.x1 == uint_value(order, record.subrange(2 * w, 2 * w + 4))
            &&& entry.bounds.y1 == uint_value(order, record.subrange(2 * w + 4, 2 * w + 8))
            &&& entry.bounds.x2 == uint_value(order, record.subrange(2 * w + 8, 2 * w + 12))
            &&& entry.bounds.y2 == uint_value(order, record.subrange(2 * w + 12, 2 * w + 16))
        }),
{
    let w = word_size() as int;
    lemma_word_size();
    lemma_uint_value_bound(order, record.subrange(0, w));
    lemma_uint_value_bound(order, record.subrange(w, 2 * w));
    lemma_uint_value_bound(order, record.subrange(2 * w, 2 * w + 4));
    lemma_uint_value_bound(order, record.subrange(2 * w + 4, 2 * w + 8));
    lemma_uint_value_bound(order, record.subrange(2 * w + 8, 2 * w + 12));
    lemma_uint_value_bound(order, record.subrange(2 * w + 12, 2 * w + 16));
}

/// A stream that ends in the word that holds the length of its data has what
/// lies between them as its index.
pub proof fn law_where_the_index_lies(order: ByteOrder, data: Seq<u8>, index: Seq<u8>)
    requires
        data.len() <= usize::MAX,
    ensures
        ({
            let blob = data + index + uint_bytes(order, data.len(), word_size());
            &&& has_index(order, blob)
            &&& index_offset(order, blob) == data.len()
            &&& index_bytes(order, blob) == index
            &&& blob_entries(order, blob) == entries_from(order, index, 0)
            &&& is_blob(order, blob) <==> index.len() % (2 * word_size() + 16) == 0
        }),
{
    let blob = data + index + uint_bytes(order, data.len(), word_size());
    lemma_word_size();
    lemma_uint_bytes_len(order, data.len(), word_size());
    law_value_of_bytes(order, data.len(), word_size());
    assert(blob.skip(blob.len() - word_size()) =~= uint_bytes(order, data.len(), word_size()));
    assert(blob.subrange(data.len() as int, blob.len() - word_size()) =~= index);
}

/// Reads the index of a blob.
pub struct BlobReader<'a> {
    pub reader: BufReader<'a>,
    pub begin: usize,
}

impl<'a> BlobReader<'a> {
    /// The cursor lies inside the index or at its end.
    pub open spec fn wf(&self) -> bool {
        self.reader.wf()
    }

    /// The items that are left to read.
    pub open spec fn entries(&self) -> Seq<Entry> {
        entries_from(self.reader.order, self.reader.remaining(), self.begin)
    }

    /// What is left to read is whole records.
    pub open spec fn whole(&self) -> bool {
        &&& self.wf()
        &&& self.reader.remaining().len() % entry_size() == 0
    }

    /// Starts at the first item of `buf`.
    pub fn new(buf: &'a [u8], order: ByteOrder) -> (reader: BlobReader<'a>)
        requires
            has_index(order, buf@),
        ensures
            reader.wf(),
            reader.reader.order == order,
            reader.reader.pos == 0,
            reader.reader.buf@ == buf@.subrange(
                uint_value(order, buf@.skip(buf@.len() - word_size())) as int,
                buf@.len() - word_size(),
            ),
            reader.reader.remaining() == index_bytes(order, buf@),
            reader.begin == 0,
            reader.entries() == blob_entries(order, buf@),
            reader.whole() == is_blob(order, buf@),
    {
        broadcast use layout_of_primitives;

        proof {
            lemma_word_size();
        }
        // The offset of the index is at the end of the buffer.
        let index_offset_pos: usize = buf.len() - std::mem::size_of::<usize>();
        let tail: &[u8] = &buf[index_offset_pos..buf.len()];
        assert(tail@.take(word_size() as int) =~= buf@.skip(buf@.len() - word_size()));
        let index_offset: usize = to_usize(tail, order);
        BlobReader { reader: BufReader::new(&buf[index_offset..index_offset_pos], order), begin: 0 }
    }

    /// Reads the next item.
    pub fn read_entry(&mut self) -> (entry: Entry)
        requires
            old(self).wf(),
            entry_size() <= old(self).reader.remaining().len(),
        ensures
            entry == decode_entry(
                old(self).reader.order,
                old(self).reader.remaining().take(entry_size() as int),
                old(self).begin,
            ),
            ({
                let order = old(self).reader.order;
                let buf = old(self).reader.buf@;
                let at = old(self).reader.pos as int;
                let w = word_size() as int;
                &&& entry.begin == old(self).begin
                &&& entry.end == uint_value(order, buf.subrange(at, at + w))
                &&& entry.extra_end == uint_value(order, buf.subrange(at + w, at + 2 * w))
                &&& entry.bounds.x1 == uint_value(
                    order,
                    buf.subrange(at + 2 * w, at + 2 * w + 4),
                )
                &&& entry.bounds.y1 == uint_value(
                    order,
                    buf.subrange(at + 2 * w + 4, at + 2 * w + 8),
                )
                &&& entry.bounds.x2 == uint_value(
                    order,
                    buf.subrange(at + 2 * w + 8, at + 2 * w + 12),
                )
                &&& entry.bounds.y2 == uint_value(
                    order,
                    buf.subrange(at + 2 * w + 12, at + 2 * w + 16),
                )
            }),
            final(self).reader.buf@ == old(self).reader.buf@,
            final(self).reader.order == old(self).reader.order,
            final(self).reader.pos == old(self).reader.pos + 2 * word_size() + 16,
            final(self).reader.advanced(&old(self).reader, entry_size()),
            final(self).begin == entry.extra_end,
            old(self).entries() == seq![entry] + final(self).entries(),
            old(self).whole() ==> final(self).whole(),
    {
        let ghost bytes = self.reader.remaining();
        let ghost w = word_size() as int;
        let ghost record = bytes.take(entry_size() as int);
        proof {
            lemma_word_size();
            assert(bytes.take(w) =~= record.subrange(0, w));
            assert(bytes.skip(w).take(w) =~= record.subrange(w, 2 * w));
            assert(bytes.skip(w).skip(w) =~= bytes.skip(2 * w));
            assert(bytes.skip(2 * w).take(4) =~= record.subrange(2 * w, 2 * w + 4));
            assert(bytes.skip(2 * w).skip(4) =~= bytes.skip(2 * w + 4));
            assert(bytes.skip(2 * w + 4).take(4) =~= record.subrange(2 * w + 4, 2 * w + 8));
            assert(bytes.skip(2 * w + 4).skip(4) =~= bytes.skip(2 * w + 8));
            assert(bytes.skip(2 * w + 8).take(4) =~= record.subrange(2 * w + 8, 2 * w + 12));
            assert(bytes.skip(2 * w + 8).skip(4) =~= bytes.skip(2 * w + 12));
            assert(bytes.skip(2 * w + 12).take(4) =~= record.subrange(2 * w + 12, 2 * w + 16));
            assert(bytes.skip(2 * w + 12).skip(4) =~= bytes.skip(entry_size() as int));
            if self.whole() {
                lemma_whole_records(bytes.len());
            }
        }
        let end: usize = self.reader.read_usize();
        let extra_end: usize = self.reader.read_usize();
        let x1: u32 = self.reader.read_u32();
        let y1: u32 = self.reader.read_u32();
        let x2: u32 = self.reader.read_u32();
        let y2: u32 = self.reader.read_u32();
        let entry = Entry { bounds: Box2d { x1, y1, x2, y2 }, begin: self.begin, end, extra_end };
        self.begin = extra_end;
        entry
    }

    /// With whole records left, a byte is left exactly when a record is.
    pub proof fn lemma_next_record(&self)
        requires
            self.whole(),
        ensures
            self.reader.remaining().len() > 0 ==> self.reader.remaining().len() >= entry_size(),
            self.reader.remaining().len() == 0 <==> self.entries().len() == 0,
    {
        lemma_word_size();
        if self.reader.remaining().len() > 0 {
            lemma_whole_records(self.reader.remaining().len());
        }
    }
}

/// Reads the whole index of `blob`.
pub fn read_index(blob: &[u8], order: ByteOrder) -> (entries: Vec<Entry>)
    requires
        is_blob(order, blob@),
    ensures
        entries@ == blob_entries(order, blob@),
{
    let mut index = BlobReader::new(blob, order);
    let mut entries: Vec<Entry> = Vec::new();
    assert(entries@ + index.entries() =~= blob_entries(order, blob@));
    proof {
        index.lemma_next_record();
    }
    while index.reader.has_more()
        invariant
            index.whole(),
            entries@ + index.entries() == blob_entries(order, blob@),
            index.reader.remaining().len() > 0 ==> index.reader.remaining().len() >= entry_size(),
            index.reader.remaining().len() == 0 ==> index.entries().len() == 0,
        decreases index.reader.remaining().len(),
    {
        let ghost read = entries@;
        let ghost left = index.entries();
        let entry = index.read_entry();
        entries.push(entry);
        proof {
            lemma_word_size();
            index.lemma_next_record();
            assert(entries@ + index.entries() =~= read + left);
        }
    }
    assert(entries@ + index.entries() =~= entries@);
    entries
}

/// Lists the bounds of the items of `blob`, each with whether it lies within
/// `dirty_rect`.
pub fn dump_blob_index(blob: &[u8], dirty_rect: Box2d, order: ByteOrder) -> (lines: Vec<(Box2d, bool)>)
    requires
        is_blob(order, blob@),
    ensures
        lines@ == blob_entries(order, blob@).map_values(
            |e: Entry| (e.bounds, e.bounds.within(dirty_rect)),
        ),
{
    let entries = read_index(blob, order);
    let ghost line = |e: Entry| (e.bounds, e.bounds.within(dirty_rect));
    let mut lines: Vec<(Box2d, bool)> = Vec::new();
    let mut i: usize = 0;
    while i < entries.len()
        invariant
            i <= entries@.len(),
            line == (|e: Entry| (e.bounds, e.bounds.within(dirty_rect))),
            lines@ == entries@.take(i as int).map_values(line),
        decreases entries@.len() - i,
    {
        let bounds = entries[i].bounds;
        lines.push((bounds, bounds.contained_by(&dirty_rect)));
        assert(lines@ =~= entries@.take(i + 1).map_values(line));
        i += 1;
    }
    assert(entries@.take(i as int) =~= entries@);
    lines
}

/// Tells whether the last word of `blob` is the offset of an index.
pub fn find_index(blob: &[u8], order: ByteOrder) -> (found: bool)
    ensures
        found == has_index(order, blob@),
        found <==> word_size() <= blob@.len() && uint_value(
            order,
            blob@.skip(blob@.len() - word_size()),
        ) <= blob@.len() - word_size(),
{
    broadcast use layout_of_primitives;

    proof {
        lemma_word_size();
    }
    let word: usize = std::mem::size_of::<usize>();
    if blob.len() < word {
        return false;
    }
    let index_offset_pos: usize = blob.len() - word;
    let tail: &[u8] = &blob[index_offset_pos..blob.len()];
    assert(tail@.take(word_size() as int) =~= blob@.skip(blob@.len() - word_size()));
    to_usize(tail, order) <= index_offset_pos
}

/// Tells whether the index of `result` can be read to its end.
///
/// An index without records is fine: display items may end up with empty
/// bounds, and then no item is left.
pub fn check_result(result: &[u8], order: ByteOrder) -> (readable: bool)
    ensures
        readable == is_blob(order, result@),
        readable <==> {
            let offset = uint_value(order, result@.skip(result@.len() - word_size()));
            &&& word_size() <= result@.len()
            &&& offset <= result@.len() - word_size()
            &&& (result@.len() - word_size() - offset) as nat % (2 * word_size() + 16) == 0
        },
{
    broadcast use layout_of_primitives;

    if !find_index(result, order) {
        return false;
    }
    let word: usize = std::mem::size_of::<usize>();
    let mut index = BlobReader::new(result, order);
    proof {
        lemma_word_size();
    }
    while index.reader.has_more()
        invariant
            index.wf(),
            word == word_size(),
            word == 4 || word == 8,
            index.whole() == is_blob(order, result@),
        decreases index.reader.remaining().len(),
    {
        if index.reader.buf.len() - index.reader.pos < 2 * word + 16 {
            proof {
                if index.whole() {
                    lemma_whole_records(index.reader.remaining().len());
                }
            }
            return false;
        }
        proof {
            lemma_mod_sub_multiples_vanish(
                index.reader.remaining().len() as int,
                entry_size() as int,
            );
        }
        index.read_entry();
    }
    proof {
        lemma_small_mod(0, entry_size());
    }
    true
}

} // verus!
