//! Merging a partial update into a blob.

use vstd::layout::layout_of_primitives;
use vstd::prelude::*;

use crate::bytes::{lemma_uint_bytes_len, lemma_word_size, max_len, word_size, ByteOrder};
use crate::cache::{
    find_with_bounds, first_with_bounds, lemma_filter_push, lemma_first_with_bounds,
    lemma_is_first_with_bounds, lemma_none_with_bounds, lemma_remove_first,
    lemma_with_bounds_outside, outside, with_bounds, CachedReader,
};
use crate::geometry::Box2d;
use crate::index::{
    blob_entries, check_result, entry_size, index_bytes, is_blob, law_one_entry_per_record,
    read_index, BlobReader, Entry,
};
use crate::writer::{
    blob_of, encode_entry, items_data, items_fit, items_index, lemma_items_data_next,
    lemma_items_data_prefix, lemma_items_index_len, BlobWriter, Item,
};

verus! {

/// The item of `buf` that `entry` describes, under the given bounds.
pub open spec fn item_of(buf: Seq<u8>, entry: Entry, bounds: Box2d) -> Item {
    Item {
        bounds,
        data: buf.subrange(entry.begin as int, entry.extra_end as int),
        extra_size: (entry.extra_end - entry.end) as nat,
    }
}

/// `entry` describes an item of a buffer of `len` bytes.
pub open spec fn copyable(entry: Entry, len: nat) -> bool {
    &&& entry.begin <= entry.extra_end <= len
    &&& entry.end <= entry.extra_end
}

/// The old item that stands in for the new one at `i`: of the old items with
/// the same bounds, the one that comes as late as the new one does among the
/// new items with these bounds.
pub open spec fn kept_entry(old: Seq<Entry>, new: Seq<Entry>, i: int) -> Entry {
    with_bounds(old, new[i].bounds)[with_bounds(new.take(i), new[i].bounds).len() as int]
}

/// There are as many old items as new ones with any bounds outside
/// `dirty_rect`.
pub open spec fn same_outside(old: Seq<Entry>, new: Seq<Entry>, dirty_rect: Box2d) -> bool {
    forall|bounds: Box2d|
        !bounds.within(dirty_rect) ==> #[trigger] with_bounds(old, bounds).len() == with_bounds(
            new,
            bounds,
        ).len()
}

/// The item at `i` of the merged blob: the new one where it lies within
/// `dirty_rect`, else the content of the old one that stands in for it.
pub open spec fn merged_item(
    order: ByteOrder,
    old_buf: Seq<u8>,
    new_buf: Seq<u8>,
    dirty_rect: Box2d,
    i: int,
) -> Item {
    let new = blob_entries(order, new_buf);
    if new[i].bounds.within(dirty_rect) {
        item_of(new_buf, new[i], new[i].bounds)
    } else {
        item_of(old_buf, kept_entry(blob_entries(order, old_buf), new, i), new[i].bounds)
    }
}

/// The items of the merged blob.
pub open spec fn merged_items(
    order: ByteOrder,
    old_buf: Seq<u8>,
    new_buf: Seq<u8>,
    dirty_rect: Box2d,
) -> Seq<Item> {
    Seq::new(
        blob_entries(order, new_buf).len(),
        |i: int| merged_item(order, old_buf, new_buf, dirty_rect, i),
    )
}

/// The item at `i` of the merged blob can be copied from where it is found.
pub open spec fn source_fits(
    order: ByteOrder,
    old_buf: Seq<u8>,
    new_buf: Seq<u8>,
    dirty_rect: Box2d,
    i: int,
) -> bool {
    let new = blob_entries(order, new_buf);
    if new[i].bounds.within(dirty_rect) {
        copyable(new[i], new_buf.len())
    } else {
        copyable(kept_entry(blob_entries(order, old_buf), new, i), old_buf.len())
    }
}

/// The two blobs can be merged: their items outside `dirty_rect` match, the
/// items that go into the result lie in their buffers, and the result can be
/// held in memory.
pub open spec fn mergeable(
    order: ByteOrder,
    old_buf: Seq<u8>,
    new_buf: Seq<u8>,
    dirty_rect: Box2d,
) -> bool {
    let items = merged_items(order, old_buf, new_buf, dirty_rect);
    &&& is_blob(order, old_buf)
    &&& is_blob(order, new_buf)
    &&& same_outside(blob_entries(order, old_buf), blob_entries(order, new_buf), dirty_rect)
    &&& forall|i: int|
        0 <= i < items.len() ==> #[trigger] source_fits(order, old_buf, new_buf, dirty_rect, i)
    &&& items_fit(items)
    &&& blob_of(order, items).len() <= max_len()
}

/// The merged blob.
pub open spec fn merged(
    order: ByteOrder,
    old_buf: Seq<u8>,
    new_buf: Seq<u8>,
    dirty_rect: Box2d,
) -> Seq<u8> {
    blob_of(order, merged_items(order, old_buf, new_buf, dirty_rect))
}

/// After the new items `done`, the old items outside `rect` that are left
/// are, for any bounds, all but the first so many.
spec fn left_over(pending: Seq<Entry>, old: Seq<Entry>, done: Seq<Entry>, rect: Box2d) -> bool {
    &&& forall|i: int| 0 <= i < pending.len() ==> !(#[trigger] pending[i]).bounds.within(rect)
    &&& forall|bounds: Box2d|
        #![trigger with_bounds(old, bounds)]
        !bounds.within(rect) ==> {
            &&& with_bounds(done, bounds).len() <= with_bounds(old, bounds).len()
            &&& with_bounds(pending, bounds) == with_bounds(old, bounds).skip(
                with_bounds(done, bounds).len() as int,
            )
        }
}

proof fn lemma_nothing_left_over_at_first(old: Seq<Entry>, rect: Box2d)
    ensures
        left_over(outside(old, rect), old, Seq::empty(), rect),
{
    broadcast use vstd::seq_lib::group_filter_ensures;

    assert forall|bounds: Box2d|
        #![trigger with_bounds(old, bounds)]
        !bounds.within(rect) implies {
        &&& with_bounds(Seq::empty(), bounds).len() <= with_bounds(old, bounds).len()
        &&& with_bounds(outside(old, rect), bounds) == with_bounds(old, bounds).skip(
            with_bounds(Seq::empty(), bounds).len() as int,
        )
    } by {
        reveal(Seq::filter);
        lemma_with_bounds_outside(old, rect, bounds);
        assert(with_bounds(old, bounds).skip(0) =~= with_bounds(old, bounds));
    }
}

/// A new item within the rectangle leaves the pending items as they are.
proof fn lemma_left_over_within(
    pending: Seq<Entry>,
    old: Seq<Entry>,
    done: Seq<Entry>,
    rect: Box2d,
    entry: Entry,
)
    requires
        left_over(pending, old, done, rect),
        entry.bounds.within(rect),
    ensures
        left_over(pending, old, done.push(entry), rect),
{
    assert forall|bounds: Box2d|
        #![trigger with_bounds(old, bounds)]
        !bounds.within(rect) implies {
        &&& with_bounds(done.push(entry), bounds).len() <= with_bounds(old, bounds).len()
        &&& with_bounds(pending, bounds) == with_bounds(old, bounds).skip(
            with_bounds(done.push(entry), bounds).len() as int,
        )
    } by {
        lemma_filter_push(done, entry, |e: Entry| e.bounds == bounds);
        assert(with_bounds(done.push(entry), bounds) == with_bounds(done, bounds));
    }
}

/// A new item outside the rectangle takes the first pending item with its
/// bounds.
proof fn lemma_left_over_outside(
    pending: Seq<Entry>,
    old: Seq<Entry>,
    done: Seq<Entry>,
    rect: Box2d,
    entry: Entry,
)
    requires
        left_over(pending, old, done, rect),
        !entry.bounds.within(rect),
        with_bounds(pending, entry.bounds).len() > 0,
    ensures
        first_with_bounds(pending, entry.bounds) < pending.len(),
        pending[first_with_bounds(pending, entry.bounds)] == with_bounds(
            old,
            entry.bounds,
        )[with_bounds(done, entry.bounds).len() as int],
        left_over(
            pending.remove(first_with_bounds(pending, entry.bounds)),
            old,
            done.push(entry),
            rect,
        ),
{
    let at = first_with_bounds(pending, entry.bounds);
    let rest = pending.remove(at);
    lemma_none_with_bounds(pending, entry.bounds);
    lemma_first_with_bounds(pending, entry.bounds);
    lemma_remove_first(pending, entry.bounds);
    assert forall|bounds: Box2d|
        #![trigger with_bounds(old, bounds)]
        !bounds.within(rect) implies {
        &&& with_bounds(done.push(entry), bounds).len() <= with_bounds(old, bounds).len()
        &&& with_bounds(rest, bounds) == with_bounds(old, bounds).skip(
            with_bounds(done.push(entry), bounds).len() as int,
        )
    } by {
        lemma_filter_push(done, entry, |e: Entry| e.bounds == bounds);
        assert(with_bounds(pending, bounds) == with_bounds(old, bounds).skip(
            with_bounds(done, bounds).len() as int,
        ));
        if bounds == entry.bounds {
            assert(with_bounds(rest, bounds) =~= with_bounds(old, bounds).skip(
                with_bounds(done, bounds).len() as int + 1,
            ));
        }
    }
}

/// Once all new items are done and the items outside the rectangle match,
/// nothing is left over.
proof fn lemma_nothing_left_over_at_last(
    pending: Seq<Entry>,
    old: Seq<Entry>,
    new: Seq<Entry>,
    rect: Box2d,
)
    requires
        left_over(pending, old, new, rect),
    ensures
        same_outside(old, new, rect) <==> pending.len() == 0,
{
    if pending.len() > 0 {
        let bounds = pending[0].bounds;
        lemma_is_first_with_bounds(pending, bounds, 0);
        lemma_none_with_bounds(pending, bounds);
        assert(with_bounds(old, bounds).len() > with_bounds(new, bounds).len());
    } else {
        assert forall|bounds: Box2d| !bounds.within(rect) implies #[trigger] with_bounds(
            old,
            bounds,
        ).len() == with_bounds(new, bounds).len() by {
            lemma_none_with_bounds(pending, bounds);
            lemma_first_with_bounds(pending, bounds);
        }
    }
}

/// A part of the items has no more items with given bounds than all.
proof fn lemma_with_bounds_prefix(entries: Seq<Entry>, i: int, bounds: Box2d)
    requires
        0 <= i <= entries.len(),
    ensures
        with_bounds(entries.take(i), bounds).len() <= with_bounds(entries, bounds).len(),
{
    assert(entries =~= entries.take(i) + entries.skip(i));
    Seq::filter_distributes_over_add(
        entries.take(i),
        entries.skip(i),
        |e: Entry| e.bounds == bounds,
    );
}

/// What goes into the writer for the item at `i` fits.
proof fn lemma_next_item(order: ByteOrder, items: Seq<Item>, i: int)
    requires
        0 <= i < items.len(),
    ensures
        items_data(items.take(i + 1)) == items_data(items.take(i)) + items[i].data,
        items_data(items.take(i + 1)).len() <= items_data(items).len(),
        items_index(order, items.take(i)).len() + entry_size() <= items_index(order, items).len(),
        items_index(order, items.take(i + 1)) == items_index(order, items.take(i))
            + encode_entry(
            order,
            (items_data(items.take(i + 1)).len() - items[i].extra_size) as nat,
            items_data(items.take(i + 1)).len(),
            items[i].bounds,
        ),
{
    lemma_items_data_next(items, i);
    lemma_items_data_prefix(items, i + 1);
    lemma_items_index_len(order, items);
    lemma_items_index_len(order, items.take(i));
    assert(items.take(i + 1).drop_last() =~= items.take(i));
    assert(i * entry_size() + entry_size() <= items.len() * entry_size()) by (nonlinear_arith)
        requires
            0 <= i < items.len(),
    ;
}

/// Merges a new partial blob image into an existing complete blob image.
///
/// All of the items not fully contained in `dirty_rect` should match in both
/// new and old lists, and the old content is used for these items. Old items
/// contained in `dirty_rect` are dropped and new items are retained.
pub fn merge_blob_images(
    old_buf: &[u8],
    new_buf: &[u8],
    dirty_rect: Box2d,
    order: ByteOrder,
) -> (result: Vec<u8>)
    requires
        mergeable(order, old_buf@, new_buf@, dirty_rect),
    ensures
        result@ == merged(order, old_buf@, new_buf@, dirty_rect),
{
    let ghost old = blob_entries(order, old_buf@);
    let ghost new = blob_entries(order, new_buf@);
    let ghost items = merged_items(order, old_buf@, new_buf@, dirty_rect);
    let ghost mut i: int = 0;
    let mut result = BlobWriter::new(order);
    let mut old_reader = CachedReader::new(old_buf, order);
    let mut new_reader = BlobReader::new(new_buf, order);
    proof {
        lemma_nothing_left_over_at_first(old, dirty_rect);
        assert(old_reader.pending(dirty_rect) =~= outside(old, dirty_rect));
        assert(new.take(0) =~= Seq::empty());
        assert(items.take(0) =~= Seq::empty());
        assert(new.skip(0) =~= new);
        lemma_uint_bytes_len(order, items_data(items).len(), word_size());
        new_reader.lemma_next_record();
    }
    while new_reader.reader.has_more()
        invariant
            mergeable(order, old_buf@, new_buf@, dirty_rect),
            old == blob_entries(order, old_buf@),
            new == blob_entries(order, new_buf@),
            items == merged_items(order, old_buf@, new_buf@, dirty_rect),
            0 <= i <= items.len() == new.len(),
            items_data(items).len() + items_index(order, items).len() + word_size() <= max_len(),
            new_reader.whole(),
            new_reader.reader.order == order,
            new_reader.entries() == new.skip(i),
            new_reader.reader.remaining().len() > 0 ==> new_reader.reader.remaining().len()
                >= entry_size(),
            new_reader.reader.remaining().len() == 0 <==> new.skip(i).len() == 0,
            old_reader.reader.whole(),
            left_over(old_reader.pending(dirty_rect), old, new.take(i), dirty_rect),
            result.order == order,
            result.data@ == items_data(items.take(i)),
            result.index@ == items_index(order, items.take(i)),
        decreases new_reader.reader.remaining().len(),
    {
        let ghost before = new_reader.entries();
        let entry = new_reader.read_entry();
        proof {
            lemma_word_size();
            assert(before[0] == new[i]);
            assert(entry == new[i]);
            assert(new_reader.entries() =~= before.skip(1));
            assert(before.skip(1) =~= new.skip(i + 1));
            assert(new.take(i + 1) =~= new.take(i).push(entry));
            assert(items[i] == merged_item(order, old_buf@, new_buf@, dirty_rect, i));
            assert(source_fits(order, old_buf@, new_buf@, dirty_rect, i));
            lemma_next_item(order, items, i);
            new_reader.lemma_next_record();
        }
        if entry.bounds.contained_by(&dirty_rect) {
            result.new_entry(
                entry.extra_end - entry.end,
                entry.bounds,
                &new_buf[entry.begin..entry.extra_end],
            );
            proof {
                lemma_left_over_within(
                    old_reader.pending(dirty_rect),
                    old,
                    new.take(i),
                    dirty_rect,
                    entry,
                );
            }
        } else {
            let ghost reader = old_reader;
            let ghost pending = old_reader.pending(dirty_rect);
            proof {
                // Of the old items with these bounds, some are left over.
                lemma_filter_push(new.take(i), entry, |e: Entry| e.bounds == entry.bounds);
                lemma_with_bounds_prefix(new, i + 1, entry.bounds);
                assert(with_bounds(pending, entry.bounds) == with_bounds(old, entry.bounds).skip(
                    with_bounds(new.take(i), entry.bounds).len() as int,
                ));
                old_reader.lemma_pending_can_be_handed_out(entry.bounds, dirty_rect);
                lemma_left_over_outside(pending, old, new.take(i), dirty_rect, entry);
            }
            let kept = old_reader.next_entry_with_bounds(&entry.bounds, &dirty_rect);
            proof {
                old_reader.law_hands_out_in_order(&reader, kept, entry.bounds, dirty_rect);
                assert(kept == kept_entry(old, new, i));
            }
            result.new_entry(
                kept.extra_end - kept.end,
                entry.bounds,
                &old_buf[kept.begin..kept.extra_end],
            );
        }
        proof {
            i = i + 1;
        }
    }
    proof {
        assert(items.take(i) =~= items);
        // All remaining items are discarded: none lies outside the dirty rect.
        assert(new.take(i) =~= new);
        lemma_nothing_left_over_at_last(old_reader.pending(dirty_rect), old, new, dirty_rect);
        assert(old_reader.pending(dirty_rect).len() == 0);
    }
    result.finish()
}

/// Tells whether two blobs can be merged.
pub fn can_merge_blob_images(
    old_buf: &[u8],
    new_buf: &[u8],
    dirty_rect: Box2d,
    order: ByteOrder,
) -> (possible: bool)
    ensures
        possible == mergeable(order, old_buf@, new_buf@, dirty_rect),
{
    broadcast use layout_of_primitives;

    if !check_result(old_buf, order) || !check_result(new_buf, order) {
        return false;
    }
    let old = read_index(old_buf, order);
    let new = read_index(new_buf, order);
    let ghost items = merged_items(order, old_buf@, new_buf@, dirty_rect);
    let mut pending: Vec<Entry> = Vec::new();
    let mut k: usize = 0;
    assert(pending@ =~= outside(old@.take(0), dirty_rect)) by {
        reveal(Seq::filter);
    }
    while k < old.len()
        invariant
            k <= old@.len(),
            pending@ == outside(old@.take(k as int), dirty_rect),
        decreases old@.len() - k,
    {
        let entry = old[k];
        proof {
            lemma_filter_push(
                old@.take(k as int),
                entry,
                |e: Entry| !e.bounds.within(dirty_rect),
            );
            assert(old@.take(k as int).push(entry) =~= old@.take(k + 1));
        }
        if !entry.bounds.contained_by(&dirty_rect) {
            pending.push(entry);
        }
        k += 1;
    }
    let old_len: usize = old_buf.len();
    let new_len: usize = new_buf.len();
    let limit: usize = isize::MAX as usize;
    let mut total: usize = 0;
    let mut i: usize = 0;
    proof {
        assert(old@.take(k as int) =~= old@);
        assert(new@.take(0) =~= Seq::empty());
        assert(items.take(0) =~= Seq::empty());
        lemma_nothing_left_over_at_first(old@, dirty_rect);
        lemma_uint_bytes_len(order, items_data(items).len(), word_size());
    }
    while i < new.len()
        invariant
            old@ == blob_entries(order, old_buf@),
            new@ == blob_entries(order, new_buf@),
            is_blob(order, old_buf@),
            is_blob(order, new_buf@),
            items == merged_items(order, old_buf@, new_buf@, dirty_rect),
            old_len == old_buf@.len(),
            new_len == new_buf@.len(),
            limit == max_len(),
            items_data(items).len() <= blob_of(order, items).len(),
            i <= new@.len() == items.len(),
            total <= limit,
            total == items_data(items.take(i as int)).len(),
            left_over(pending@, old@, new@.take(i as int), dirty_rect),
            forall|j: int|
                0 <= j < i ==> #[trigger] source_fits(order, old_buf@, new_buf@, dirty_rect, j),
            forall|j: int|
                0 <= j < i ==> (#[trigger] items[j]).extra_size <= items_data(
                    items.take(j + 1),
                ).len(),
        decreases new@.len() - i,
    {
        let entry = new[i];
        let ghost done = new@.take(i as int);
        proof {
            assert(new@.take(i + 1) =~= done.push(entry));
            lemma_next_item(order, items, i as int);
            assert(items[i as int] == merged_item(
                order,
                old_buf@,
                new_buf@,
                dirty_rect,
                i as int,
            ));
        }
        let mut source = entry;
        let mut len: usize = new_len;
        if entry.bounds.contained_by(&dirty_rect) {
            proof {
                lemma_left_over_within(pending@, old@, done, dirty_rect, entry);
            }
        } else {
            let at: usize = find_with_bounds(&pending, &entry.bounds);
            proof {
                lemma_none_with_bounds(pending@, entry.bounds);
                lemma_first_with_bounds(pending@, entry.bounds);
            }
            if at == pending.len() {
                proof {
                    // More new items have these bounds than old ones.
                    lemma_filter_push(done, entry, |e: Entry| e.bounds == entry.bounds);
                    lemma_with_bounds_prefix(new@, i + 1, entry.bounds);
                    assert(with_bounds(old@, entry.bounds).len() < with_bounds(
                        new@,
                        entry.bounds,
                    ).len());
                }
                return false;
            }
            proof {
                lemma_left_over_outside(pending@, old@, done, dirty_rect, entry);
            }
            source = pending.remove(at);
            len = old_len;
        }
        if source.begin > source.extra_end || source.extra_end > len || source.end
            > source.extra_end {
            assert(!source_fits(order, old_buf@, new_buf@, dirty_rect, i as int));
            return false;
        }
        let size: usize = source.extra_end - source.begin;
        if size > limit - total {
            return false;
        }
        total = total + size;
        if source.extra_end - source.end > total {
            return false;
        }
        i += 1;
    }
    proof {
        assert(new@.take(i as int) =~= new@);
        assert(items.take(i as int) =~= items);
        lemma_nothing_left_over_at_last(pending@, old@, new@, dirty_rect);
        lemma_items_index_len(order, items);
        law_one_entry_per_record(order, index_bytes(order, new_buf@), 0);
    }
    if pending.len() > 0 {
        return false;
    }
    let word: usize = std::mem::size_of::<usize>();
    let record: usize = 2 * word + 16;
    assert(record == entry_size());
    assert(new@.len() * entry_size() + word_size() <= new_len);
    let framing: usize = new.len() * record + word;
    framing <= limit && total <= limit - framing
}

} // verus!
