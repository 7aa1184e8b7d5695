//! Writing blobs.

use vstd::arithmetic::div_mod::lemma_mod_multiples_basic;
use vstd::layout::layout_of_primitives;
use vstd::prelude::*;

use crate::bytes::{
    convert_to_bytes, law_value_of_bytes, lemma_uint_bytes_len, lemma_word_size, max_len,
    u32_bytes, uint_bytes, word_bytes, word_size, ByteOrder,
};
use crate::geometry::Box2d;
use crate::index::{
    blob_entries, decode_entry, entries_from, entry_size, index_bytes, index_offset, is_blob,
    Entry,
};

verus! {

/// An item: its bounds and its bytes, the last `extra_size` of which are its
/// extra data.
#[verifier::ext_equal]
pub struct Item {
    pub bounds: Box2d,
    pub data: Seq<u8>,
    pub extra_size: nat,
}

/// The index record of an item.
pub open spec fn encode_entry(order: ByteOrder, end: nat, extra_end: nat, bounds: Box2d) -> Seq<u8> {
    word_bytes(order, end) + word_bytes(order, extra_end) + u32_bytes(order, bounds.x1) + u32_bytes(
        order,
        bounds.y1,
    ) + u32_bytes(order, bounds.x2) + u32_bytes(order, bounds.y2)
}

/// The bytes of all items, one item after the other.
pub open spec fn items_data(items: Seq<Item>) -> Seq<u8>
    decreases items.len(),
{
    if items.len() == 0 {
        Seq::empty()
    } else {
        items_data(items.drop_last()) + items.last().data
    }
}

/// The index of a blob that holds `items`.
pub open spec fn items_index(order: ByteOrder, items: Seq<Item>) -> Seq<u8>
    decreases items.len(),
{
    if items.len() == 0 {
        Seq::empty()
    } else {
        let extra_end = items_data(items).len();
        items_index(order, items.drop_last()) + encode_entry(
            order,
            (extra_end - items.last().extra_size) as nat,
            extra_end,
            items.last().bounds,
        )
    }
}

/// The blob that holds `items`.
pub open spec fn blob_of(order: ByteOrder, items: Seq<Item>) -> Seq<u8> {
    items_data(items) + items_index(order, items) + word_bytes(order, items_data(items).len())
}

/// The extra data of each item starts inside the stream.
pub open spec fn items_fit(items: Seq<Item>) -> bool {
    forall|i: int|
        0 <= i < items.len() ==> (#[trigger] items[i]).extra_size <= items_data(
            items.take(i + 1),
        ).len()
}

/// What the index of `blob_of` says of the item at `i`.
pub open spec fn item_entry(items: Seq<Item>, i: int) -> Entry {
    let extra_end = items_data(items.take(i + 1)).len();
    Entry {
        bounds: items[i].bounds,
        begin: items_data(items.take(i)).len() as usize,
        end: (extra_end - items[i].extra_size) as usize,
        extra_end: extra_end as usize,
    }
}

/// What the index of `blob_of` says of the items.
pub open spec fn item_entries(items: Seq<Item>) -> Seq<Entry> {
    Seq::new(items.len(), |i: int| item_entry(items, i))
}

proof fn lemma_encode_entry_len(order: ByteOrder, end: nat, extra_end: nat, bounds: Box2d)
    ensures
        encode_entry(order, end, extra_end, bounds).len() == entry_size(),
{
    lemma_uint_bytes_len(order, end, word_size());
    lemma_uint_bytes_len(order, extra_end, word_size());
    lemma_uint_bytes_len(order, bounds.x1 as nat, 4);
    lemma_uint_bytes_len(order, bounds.y1 as nat, 4);
    lemma_uint_bytes_len(order, bounds.x2 as nat, 4);
    lemma_uint_bytes_len(order, bounds.y2 as nat, 4);
}

/// Decoding a record gives back what was encoded.
pub proof fn law_decode_of_encode(
    order: ByteOrder,
    begin: usize,
    end: usize,
    extra_end: usize,
    bounds: Box2d,
)
    ensures
        decode_entry(order, encode_entry(order, end as nat, extra_end as nat, bounds), begin) == (
        Entry { bounds, begin, end, extra_end }),
{
    let w = word_size() as int;
    let record = encode_entry(order, end as nat, extra_end as nat, bounds);
    lemma_word_size();
    lemma_uint_bytes_len(order, end as nat, word_size());
    lemma_uint_bytes_len(order, extra_end as nat, word_size());
    lemma_uint_bytes_len(order, bounds.x1 as nat, 4);
    lemma_uint_bytes_len(order, bounds.y1 as nat, 4);
    lemma_uint_bytes_len(order, bounds.x2 as nat, 4);
    lemma_uint_bytes_len(order, bounds.y2 as nat, 4);
    law_value_of_bytes(order, end as nat, word_size());
    law_value_of_bytes(order, extra_end as nat, word_size());
    law_value_of_bytes(order, bounds.x1 as nat, 4);
    law_value_of_bytes(order, bounds.y1 as nat, 4);
    law_value_of_bytes(order, bounds.x2 as nat, 4);
    law_value_of_bytes(order, bounds.y2 as nat, 4);
    assert(record.subrange(0, w) =~= word_bytes(order, end as nat));
    assert(record.subrange(w, 2 * w) =~= word_bytes(order, extra_end as nat));
    assert(record.subrange(2 * w, 2 * w + 4) =~= u32_bytes(order, bounds.x1));
    assert(record.subrange(2 * w + 4, 2 * w + 8) =~= u32_bytes(order, bounds.y1));
    assert(record.subrange(2 * w + 8, 2 * w + 12) =~= u32_bytes(order, bounds.x2));
    assert(record.subrange(2 * w + 12, 2 * w + 16) =~= u32_bytes(order, bounds.y2));
}

/// The layout of a record, written and read: the end of the item's data and
/// the end of its extra data as words, then `x1`, `y1`, `x2` and `y2` as four
/// bytes each.
pub proof fn law_layout_of_a_record(
    order: ByteOrder,
    begin: usize,
    end: usize,
    extra_end: usize,
    a: u32,
    b: u32,
    c: u32,
    d: u32,
)
    ensures
        ({
            let record = uint_bytes(order, end as nat, word_size()) + uint_bytes(
                order,
                extra_end as nat,
                word_size(),
            ) + uint_bytes(order, a as nat, 4) + uint_bytes(order, b as nat, 4) + uint_bytes(
                order,
                c as nat,
                4,
            ) + uint_bytes(order, d as nat, 4);
            let bounds = Box2d { x1: a, y1: b, x2: c, y2: d };
            &&& record == encode_entry(order, end as nat, extra_end as nat, bounds)
            &&& decode_entry(order, record, begin) == (Entry { bounds, begin, end, extra_end })
            &&& entries_from(order, record, begin) == seq![Entry { bounds, begin, end, extra_end }]
        }),
{
    let bounds = Box2d { x1: a, y1: b, x2: c, y2: d };
    let record = encode_entry(order, end as nat, extra_end as nat, bounds);
    let empty = Seq::<u8>::empty();
    law_decode_of_encode(order, begin, end, extra_end, bounds);
    lemma_encode_entry_len(order, end as nat, extra_end as nat, bounds);
    lemma_word_size();
    assert(0 * entry_size() == 0);
    lemma_entries_of_longer_index(order, empty, record, begin);
    assert(empty + record =~= record);
    assert(entries_from(order, empty, begin) =~= Seq::empty());
    assert(entries_from(order, record, begin) =~= seq![Entry { bounds, begin, end, extra_end }]);
}

/// One more record at the end of an index is one more item at the end.
proof fn lemma_entries_of_longer_index(
    order: ByteOrder,
    index: Seq<u8>,
    record: Seq<u8>,
    begin: usize,
)
    requires
        index.len() == entries_from(order, index, begin).len() * entry_size(),
        record.len() == entry_size(),
    ensures
        ({
            let entries = entries_from(order, index, begin);
            let next = if entries.len() == 0 {
                begin
            } else {
                entries.last().extra_end
            };
            entries_from(order, index + record, begin) == entries.push(
                decode_entry(order, record, next),
            )
        }),
    decreases index.len(),
{
    let size = entry_size() as int;
    let entries = entries_from(order, index, begin);
    lemma_word_size();
    if index.len() < size {
        assert(index.len() == 0) by {
            assert(entries.len() == 0);
            assert(0 * entry_size() == 0);
        }
        assert(index + record =~= record);
        assert(record.take(size) =~= record);
        assert(record.skip(size) =~= Seq::empty());
        reveal_with_fuel(entries_from, 2);
        assert(entries.push(decode_entry(order, record, begin)) =~= seq![
            decode_entry(order, record, begin),
        ]);
        assert(entries_from(order, record, begin) =~= seq![decode_entry(order, record, begin)]);
    } else {
        let first = decode_entry(order, index.take(size), begin);
        let rest = entries_from(order, index.skip(size), first.extra_end);
        assert(entries.len() == rest.len() + 1);
        assert((rest.len() + 1) * entry_size() == rest.len() * entry_size() + entry_size())
            by (nonlinear_arith);
        lemma_entries_of_longer_index(order, index.skip(size), record, first.extra_end);
        assert((index + record).take(size) =~= index.take(size));
        assert((index + record).skip(size) =~= index.skip(size) + record);
        let next = entries.last().extra_end;
        assert(next == if rest.len() == 0 {
            first.extra_end
        } else {
            rest.last().extra_end
        });
        assert(entries.push(decode_entry(order, record, next)) =~= seq![first] + rest.push(
            decode_entry(order, record, next),
        ));
    }
}

/// The data of some of the items is part of the data of all.
pub proof fn lemma_items_data_prefix(items: Seq<Item>, i: int)
    requires
        0 <= i <= items.len(),
    ensures
        items_data(items.take(i)).len() <= items_data(items).len(),
        items_data(items).take(items_data(items.take(i)).len() as int) == items_data(items.take(i)),
    decreases items.len(),
{
    if i < items.len() {
        lemma_items_data_prefix(items.drop_last(), i);
        assert(items.drop_last().take(i) =~= items.take(i));
        assert(items_data(items).take(items_data(items.take(i)).len() as int) =~= items_data(
            items.drop_last(),
        ).take(items_data(items.take(i)).len() as int));
    } else {
        assert(items.take(i) =~= items);
        assert(items_data(items).take(items_data(items).len() as int) =~= items_data(items));
    }
}

/// The data up to and with an item is the data before it, then its own.
pub proof fn lemma_items_data_next(items: Seq<Item>, i: int)
    requires
        0 <= i < items.len(),
    ensures
        items_data(items.take(i + 1)) == items_data(items.take(i)) + items[i].data,
{
    assert(items.take(i + 1).drop_last() =~= items.take(i));
}

/// The index has one record for each item.
pub proof fn lemma_items_index_len(order: ByteOrder, items: Seq<Item>)
    ensures
        items_index(order, items).len() == items.len() * entry_size(),
    decreases items.len(),
{
    if items.len() == 0 {
        assert(0 * entry_size() == 0);
    } else {
        let before = items.drop_last();
        let extra_end = items_data(items).len();
        lemma_items_index_len(order, before);
        lemma_encode_entry_len(
            order,
            (extra_end - items.last().extra_size) as nat,
            extra_end,
            items.last().bounds,
        );
        assert((before.len() + 1) * entry_size() == before.len() * entry_size() + entry_size())
            by (nonlinear_arith);
    }
}

/// Reading the index that was written for `items` gives their entries.
proof fn lemma_entries_of_items_index(order: ByteOrder, items: Seq<Item>)
    requires
        items_fit(items),
        items_data(items).len() <= usize::MAX,
    ensures
        entries_from(order, items_index(order, items), 0) == item_entries(items),
    decreases items.len(),
{
    lemma_word_size();
    if items.len() == 0 {
        assert(item_entries(items) =~= Seq::empty());
    } else {
        let before = items.drop_last();
        let last = items.last();
        let n = items.len() as int;
        let extra_end = items_data(items).len();
        let end = (extra_end - last.extra_size) as nat;
        let record = encode_entry(order, end, extra_end, last.bounds);
        lemma_items_data_prefix(items, n - 1);
        assert(items.take(n - 1) =~= before);
        assert(items.take(n) =~= items);
        assert(items[n - 1].extra_size <= items_data(items.take(n)).len());
        assert forall|i: int| 0 <= i < before.len() implies (#[trigger] before[i]).extra_size
            <= items_data(before.take(i + 1)).len() by {
            assert(before.take(i + 1) =~= items.take(i + 1));
            assert(before[i] == items[i]);
        }
        lemma_entries_of_items_index(order, before);
        lemma_encode_entry_len(order, end, extra_end, last.bounds);
        lemma_items_index_len(order, before);
        lemma_entries_of_longer_index(order, items_index(order, before), record, 0);
        let begin = items_data(before).len() as usize;
        if before.len() > 0 {
            assert(before.take(n - 1) =~= before);
            assert(item_entries(before).last() == item_entry(before, n - 2));
        }
        law_decode_of_encode(order, begin, end as usize, extra_end as usize, last.bounds);
        assert(item_entries(items) =~= item_entries(before).push(item_entry(items, n - 1))) by {
            assert forall|i: int| 0 <= i < n - 1 implies item_entry(before, i) == item_entry(
                items,
                i,
            ) by {
                assert(before.take(i) =~= items.take(i));
                assert(before.take(i + 1) =~= items.take(i + 1));
            }
        }
    }
}

/// What was written can be read: a blob that holds `items` has an index, and
/// the index lists the items in order, with their bounds and where they lie.
pub proof fn law_read_what_was_written(order: ByteOrder, items: Seq<Item>)
    requires
        items_fit(items),
        items_data(items).len() <= usize::MAX,
    ensures
        is_blob(order, blob_of(order, items)),
        index_offset(order, blob_of(order, items)) == items_data(items).len(),
        index_bytes(order, blob_of(order, items)) == items_index(order, items),
        blob_entries(order, blob_of(order, items)) == item_entries(items),
{
    let blob = blob_of(order, items);
    let data = items_data(items);
    let index = items_index(order, items);
    lemma_word_size();
    lemma_uint_bytes_len(order, data.len(), word_size());
    law_value_of_bytes(order, data.len(), word_size());
    assert(blob.skip(blob.len() - word_size()) =~= word_bytes(order, data.len()));
    assert(blob.subrange(data.len() as int, blob.len() - word_size()) =~= index);
    lemma_entries_of_items_index(order, items);
    lemma_items_index_len(order, items);
    lemma_mod_multiples_basic(items.len() as int, entry_size() as int);
}

/// The bytes that a blob holds for an item are the item's bytes, and where the
/// extra data is part of them, it is their last `extra_size` bytes.
pub proof fn law_item_bytes_are_kept(order: ByteOrder, items: Seq<Item>, i: int)
    requires
        items_data(items).len() <= usize::MAX,
        0 <= i < items.len(),
    ensures
        ({
            let blob = blob_of(order, items);
            let entry = item_entry(items, i);
            &&& entry.begin <= entry.extra_end <= blob.len()
            &&& blob.subrange(entry.begin as int, entry.extra_end as int) == items[i].data
            &&& items[i].extra_size <= items[i].data.len() ==> {
                &&& entry.begin <= entry.end <= entry.extra_end
                &&& blob.subrange(entry.end as int, entry.extra_end as int) == items[i].data.skip(
                    items[i].data.len() - items[i].extra_size,
                )
            }
        }),
{
    let blob = blob_of(order, items);
    let entry = item_entry(items, i);
    lemma_items_data_next(items, i);
    lemma_items_data_prefix(items, i + 1);
    let upto = items_data(items.take(i + 1));
    assert(blob.take(upto.len() as int) =~= items_data(items).take(upto.len() as int));
    assert(blob.subrange(entry.begin as int, entry.extra_end as int) =~= upto.skip(
        entry.begin as int,
    ));
    assert(upto.skip(entry.begin as int) =~= items[i].data);
    if items[i].extra_size <= items[i].data.len() {
        assert(blob.subrange(entry.end as int, entry.extra_end as int) =~= items[i].data.skip(
            items[i].data.len() - items[i].extra_size,
        ));
    }
}

/// The data of a blob is the bytes of its items, one after the other.
pub proof fn law_data_of_items(items: Seq<Item>, more: Seq<Item>, item: Item)
    ensures
        items_data(Seq::empty()) == Seq::<u8>::empty(),
        items_data(seq![item]) == item.data,
        items_data(items + more) == items_data(items) + items_data(more),
    decreases more.len(),
{
    reveal_with_fuel(items_data, 2);
    assert(seq![item].drop_last() =~= Seq::empty());
    assert(Seq::<u8>::empty() + item.data =~= item.data);
    if more.len() == 0 {
        assert(items + more =~= items);
        assert(items_data(items) + Seq::<u8>::empty() =~= items_data(items));
    } else {
        law_data_of_items(items, more.drop_last(), item);
        assert((items + more).drop_last() =~= items + more.drop_last());
        assert(items_data(items + more) =~= items_data(items) + items_data(more));
    }
}

/// A blob that was written for some items holds just these: reading its index
/// gives as many items, with their bounds, their bytes and as much extra data
/// at the end of each. They take up all of the stream before the index.
pub proof fn law_blob_holds_its_items(order: ByteOrder, items: Seq<Item>, i: int)
    requires
        items_data(items).len() <= usize::MAX,
        forall|k: int|
            0 <= k < items.len() ==> (#[trigger] items[k]).extra_size <= items[k].data.len(),
        0 <= i < items.len(),
    ensures
        ({
            let blob = blob_of(order, items);
            let entries = blob_entries(order, blob);
            let entry = entries[i];
            &&& is_blob(order, blob)
            &&& entries.len() == items.len()
            &&& entry.bounds == items[i].bounds
            &&& entry.begin <= entry.end <= entry.extra_end <= index_offset(order, blob)
            &&& blob.subrange(entry.begin as int, entry.extra_end as int) == items[i].data
            &&& entry.extra_end - entry.end == items[i].extra_size
            &&& entries[0].begin == 0
            &&& i > 0 ==> entry.begin == entries[i - 1].extra_end
            &&& entries.last().extra_end == index_offset(order, blob)
        }),
{
    assert forall|k: int| 0 <= k < items.len() implies (#[trigger] items[k]).extra_size
        <= items_data(items.take(k + 1)).len() by {
        lemma_items_data_next(items, k);
    }
    law_read_what_was_written(order, items);
    law_item_bytes_are_kept(order, items, i);
    lemma_items_data_prefix(items, i + 1);
    assert(item_entries(items)[i] == item_entry(items, i));
    assert(items.take(0) =~= Seq::empty());
    assert(items.take(items.len() as int) =~= items);
}

/// Writes a new blob.
pub struct BlobWriter {
    pub data: Vec<u8>,
    pub index: Vec<u8>,
    pub order: ByteOrder,
}

impl BlobWriter {
    /// Starts a blob without items.
    pub fn new(order: ByteOrder) -> (writer: BlobWriter)
        ensures
            writer.data@ == Seq::<u8>::empty(),
            writer.index@ == Seq::<u8>::empty(),
            writer.order == order,
    {
        BlobWriter { data: Vec::new(), index: Vec::new(), order }
    }

    /// Adds an item, the last `extra_size` bytes of which are its extra data.
    pub fn new_entry(&mut self, extra_size: usize, bounds: Box2d, data: &[u8])
        requires
            extra_size <= old(self).data@.len() + data@.len() <= max_len(),
            old(self).index@.len() + entry_size() <= max_len(),
        ensures
            final(self).order == old(self).order,
            final(self).data@ == old(self).data@ + data@,
            final(self).index@ == old(self).index@ + encode_entry(
                old(self).order,
                (final(self).data@.len() - extra_size) as nat,
                final(self).data@.len(),
                bounds,
            ),
            ({
                let order = old(self).order;
                let extra_end = old(self).data@.len() + data@.len();
                let end = (extra_end - extra_size) as nat;
                final(self).index@ == old(self).index@ + uint_bytes(order, end, word_size())
                    + uint_bytes(order, extra_end, word_size()) + uint_bytes(
                    order,
                    bounds.x1 as nat,
                    4,
                ) + uint_bytes(order, bounds.y1 as nat, 4) + uint_bytes(
                    order,
                    bounds.x2 as nat,
                    4,
                ) + uint_bytes(order, bounds.y2 as nat, 4)
            }),
    {
        broadcast use layout_of_primitives;

        let word: usize = std::mem::size_of::<usize>();
        self.data.extend_from_slice(data);
        assert(self.data@ =~= old(self).data@ + data@);
        // The offset where the regular data ends and the extra data starts.
        let mut end: Vec<u8> = convert_to_bytes((self.data.len() - extra_size) as u64, word, self.order);
        // The offset where the extra data ends.
        let mut extra_end: Vec<u8> = convert_to_bytes(self.data.len() as u64, word, self.order);
        let mut x1: Vec<u8> = convert_to_bytes(bounds.x1 as u64, 4, self.order);
        let mut y1: Vec<u8> = convert_to_bytes(bounds.y1 as u64, 4, self.order);
        let mut x2: Vec<u8> = convert_to_bytes(bounds.x2 as u64, 4, self.order);
        let mut y2: Vec<u8> = convert_to_bytes(bounds.y2 as u64, 4, self.order);
        self.index.append(&mut end);
        self.index.append(&mut extra_end);
        self.index.append(&mut x1);
        self.index.append(&mut y1);
        self.index.append(&mut x2);
        self.index.append(&mut y2);
        assert(self.index@ =~= old(self).index@ + encode_entry(
            old(self).order,
            (self.data@.len() - extra_size) as nat,
            self.data@.len(),
            bounds,
        ));
    }

    /// Ends the blob: the data, then the index, then the offset of the index.
    pub fn finish(self) -> (blob: Vec<u8>)
        requires
            self.data@.len() + self.index@.len() + word_size() <= max_len(),
        ensures
            blob@ == self.data@ + self.index@ + word_bytes(self.order, self.data@.len()),
            blob@ == self.data@ + self.index@ + uint_bytes(
                self.order,
                self.data@.len(),
                word_size(),
            ),
    {
        broadcast use layout_of_primitives;

        let mut blob: Vec<u8> = self.data;
        let mut index: Vec<u8> = self.index;
        let mut index_begin: Vec<u8> = convert_to_bytes(
            blob.len() as u64,
            std::mem::size_of::<usize>(),
            self.order,
        );
        blob.append(&mut index);
        blob.append(&mut index_begin);
        blob
    }
}

} // verus!
