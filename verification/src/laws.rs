//! What holds of blobs and of merging as a whole.

use vstd::prelude::*;
use vstd::relations::injective_on;
use vstd::set_lib::lemma_map_size;

use crate::bytes::{
    law_bytes_of_value, lemma_uint_bytes_len, lemma_uint_value_bound, lemma_word_size, max_len,
    uint_value, word_bytes, word_size, ByteOrder,
};
use crate::cache::{
    lemma_filter_around, lemma_filter_one, lemma_with_bounds_outside, outside, with_bounds,
};
use crate::geometry::{law_pixels_of_a_box, law_within_is_pixel_containment, Box2d};
use crate::index::{
    blob_entries, decode_entry, entries_from, entry_size, index_bytes, index_offset, is_blob,
    law_items_are_adjacent, law_one_entry_per_record, Entry,
};
use crate::merge::{
    item_of, kept_entry, mergeable, merged, merged_item, merged_items, same_outside, source_fits,
};
use crate::writer::{
    blob_of, item_entries, item_entry, items_data, items_fit, items_index, law_item_bytes_are_kept,
    law_read_what_was_written, lemma_items_data_next, lemma_items_data_prefix,
    lemma_items_index_len, Item,
};

verus! {

/// The offsets in the index of `blob` are monotonically increasing, and none
/// points past the data.
pub open spec fn monotonic(order: ByteOrder, blob: Seq<u8>) -> bool {
    let entries = blob_entries(order, blob);
    &&& is_blob(order, blob)
    &&& forall|i: int|
        0 <= i < entries.len() ==> (#[trigger] entries[i]).begin <= entries[i].end
            <= entries[i].extra_end <= index_offset(order, blob)
}

/// The items of a blob with their bytes.
pub open spec fn blob_items(order: ByteOrder, blob: Seq<u8>) -> Seq<Item> {
    let entries = blob_entries(order, blob);
    Seq::new(entries.len(), |i: int| item_of(blob, entries[i], entries[i].bounds))
}

/// The items of `blob` take up all of its data.
pub open spec fn tight(order: ByteOrder, blob: Seq<u8>) -> bool {
    let entries = blob_entries(order, blob);
    index_offset(order, blob) == if entries.len() == 0 {
        0
    } else {
        entries.last().extra_end as nat
    }
}

/// The data of the first `i` items of a blob is the data up to where item `i`
/// begins.
proof fn lemma_data_of_blob_items(order: ByteOrder, blob: Seq<u8>, i: int)
    requires
        monotonic(order, blob),
        0 <= i <= blob_entries(order, blob).len(),
    ensures
        ({
            let at = if i == 0 {
                0
            } else {
                blob_entries(order, blob)[i - 1].extra_end as int
            };
            items_data(blob_items(order, blob).take(i)) == blob.take(at)
        }),
    decreases i,
{
    let entries = blob_entries(order, blob);
    let items = blob_items(order, blob);
    if i == 0 {
        assert(items.take(0) =~= Seq::empty());
        assert(blob.take(0) =~= Seq::empty());
    } else {
        lemma_data_of_blob_items(order, blob, i - 1);
        lemma_items_data_next(items, i - 1);
        law_items_are_adjacent(order, index_bytes(order, blob), 0, i - 1);
        let entry = entries[i - 1];
        assert(entry.begin <= entry.extra_end);
        assert(blob.take(entry.extra_end as int) =~= blob.take(entry.begin as int) + blob.subrange(
            entry.begin as int,
            entry.extra_end as int,
        ));
    }
}

/// The items of a blob, written again, have the entries that the blob has.
proof fn lemma_entries_of_blob_items(order: ByteOrder, blob: Seq<u8>)
    requires
        monotonic(order, blob),
        blob.len() <= usize::MAX,
    ensures
        items_fit(blob_items(order, blob)),
        item_entries(blob_items(order, blob)) == blob_entries(order, blob),
        items_data(blob_items(order, blob)).len() <= index_offset(order, blob),
{
    let entries = blob_entries(order, blob);
    let items = blob_items(order, blob);
    assert forall|i: int| 0 <= i < items.len() implies (#[trigger] items[i]).extra_size
        <= items_data(items.take(i + 1)).len() by {
        lemma_data_of_blob_items(order, blob, i + 1);
        assert(entries[i].begin <= entries[i].end);
    }
    assert forall|i: int| 0 <= i < items.len() implies item_entry(items, i) == entries[i] by {
        lemma_data_of_blob_items(order, blob, i);
        lemma_data_of_blob_items(order, blob, i + 1);
        law_items_are_adjacent(order, index_bytes(order, blob), 0, i);
        assert(entries[i].begin <= entries[i].end);
        if i > 0 {
            assert(entries[i - 1].begin <= entries[i - 1].end);
        }
    }
    assert(item_entries(items) =~= entries);
    lemma_data_of_blob_items(order, blob, items.len() as int);
    assert(items.take(items.len() as int) =~= items);
    if items.len() > 0 {
        assert(entries[items.len() - 1].begin <= entries[items.len() - 1].end);
    }
}

/// A record holds nothing but what it is decoded to.
proof fn lemma_decode_is_injective(order: ByteOrder, a: Seq<u8>, b: Seq<u8>, begin: usize)
    requires
        a.len() == entry_size(),
        b.len() == entry_size(),
        decode_entry(order, a, begin) == decode_entry(order, b, begin),
    ensures
        a == b,
{
    let w = word_size() as int;
    lemma_word_size();
    lemma_same_field(order, a.subrange(0, w), b.subrange(0, w));
    lemma_same_field(order, a.subrange(w, 2 * w), b.subrange(w, 2 * w));
    lemma_same_field(order, a.subrange(2 * w, 2 * w + 4), b.subrange(2 * w, 2 * w + 4));
    lemma_same_field(order, a.subrange(2 * w + 4, 2 * w + 8), b.subrange(2 * w + 4, 2 * w + 8));
    lemma_same_field(order, a.subrange(2 * w + 8, 2 * w + 12), b.subrange(2 * w + 8, 2 * w + 12));
    lemma_same_field(order, a.subrange(2 * w + 12, 2 * w + 16), b.subrange(2 * w + 12, 2 * w + 16));
    let fields = |s: Seq<u8>|
        s.subrange(0, w) + s.subrange(w, 2 * w) + s.subrange(2 * w, 2 * w + 4) + s.subrange(
            2 * w + 4,
            2 * w + 8,
        ) + s.subrange(2 * w + 8, 2 * w + 12) + s.subrange(2 * w + 12, 2 * w + 16);
    assert(fields(a) =~= a);
    assert(fields(b) =~= b);
}

proof fn lemma_same_field(order: ByteOrder, a: Seq<u8>, b: Seq<u8>)
    requires
        a.len() == b.len(),
        a.len() == 4 || a.len() == word_size(),
    ensures
        a.len() == word_size() && uint_value(order, a) as usize == uint_value(order, b) as usize
            ==> a == b,
        a.len() == 4 && uint_value(order, a) as u32 == uint_value(order, b) as u32 ==> a == b,
{
    lemma_word_size();
    lemma_uint_value_bound(order, a);
    lemma_uint_value_bound(order, b);
    law_bytes_of_value(order, a);
    law_bytes_of_value(order, b);
}

/// An index of whole records holds nothing but its entries.
proof fn lemma_entries_are_injective(order: ByteOrder, a: Seq<u8>, b: Seq<u8>, begin: usize)
    requires
        a.len() == b.len(),
        a.len() == entries_from(order, a, begin).len() * entry_size(),
        entries_from(order, a, begin) == entries_from(order, b, begin),
    ensures
        a == b,
    decreases a.len(),
{
    let size = entry_size() as int;
    lemma_word_size();
    if a.len() < size {
        assert(0 * entry_size() == 0);
        assert(a =~= b);
    } else {
        let first = decode_entry(order, a.take(size), begin);
        let rest_a = entries_from(order, a.skip(size), first.extra_end);
        let first_b = decode_entry(order, b.take(size), begin);
        let rest_b = entries_from(order, b.skip(size), first_b.extra_end);
        assert((seq![first] + rest_a)[0] == (seq![first_b] + rest_b)[0]);
        assert(rest_a =~= (seq![first] + rest_a).skip(1));
        assert(rest_b =~= (seq![first_b] + rest_b).skip(1));
        assert((rest_a.len() + 1) * entry_size() == rest_a.len() * entry_size() + entry_size())
            by (nonlinear_arith);
        lemma_decode_is_injective(order, a.take(size), b.take(size), begin);
        lemma_entries_are_injective(order, a.skip(size), b.skip(size), first.extra_end);
        assert(a =~= a.take(size) + a.skip(size));
        assert(b =~= b.take(size) + b.skip(size));
    }
}

/// The items of a blob, written again, have the index that the blob has.
proof fn lemma_index_of_blob_items(order: ByteOrder, blob: Seq<u8>)
    requires
        is_blob(order, blob),
        blob.len() <= usize::MAX,
        items_fit(blob_items(order, blob)),
        item_entries(blob_items(order, blob)) == blob_entries(order, blob),
        items_data(blob_items(order, blob)).len() <= usize::MAX,
    ensures
        items_index(order, blob_items(order, blob)) == index_bytes(order, blob),
{
    let items = blob_items(order, blob);
    law_read_what_was_written(order, items);
    lemma_items_index_len(order, items);
    law_one_entry_per_record(order, index_bytes(order, blob), 0);
    lemma_entries_are_injective(order, items_index(order, items), index_bytes(order, blob), 0);
}

/// Writing the items that were read gives the blob back, where the items take
/// up all of its data.
pub proof fn law_write_what_was_read(order: ByteOrder, blob: Seq<u8>)
    requires
        monotonic(order, blob),
        tight(order, blob),
        blob.len() <= usize::MAX,
    ensures
        blob_of(order, blob_items(order, blob)) == blob,
{
    let items = blob_items(order, blob);
    let index = index_bytes(order, blob);
    let offset = index_offset(order, blob) as int;
    let tail = blob.skip(blob.len() - word_size());
    assert(items_data(items) == blob.take(offset)) by {
        lemma_data_of_blob_items(order, blob, items.len() as int);
        assert(items.take(items.len() as int) =~= items);
    }
    assert(items_index(order, items) == index) by {
        lemma_entries_of_blob_items(order, blob);
        lemma_index_of_blob_items(order, blob);
    }
    assert(word_bytes(order, offset as nat) == tail) by {
        law_bytes_of_value(order, tail);
    }
    assert(blob =~= blob.take(offset) + index + tail);
}

/// The merged blob can be read. It has the new blob's items, in the new
/// order and with the new bounds. Where an item lies within `dirty_rect` its
/// bytes are the new ones, else they are those of the old item that stands in
/// for it, and its extra data is as long as it was there.
pub proof fn law_merged_blob(
    order: ByteOrder,
    old_buf: Seq<u8>,
    new_buf: Seq<u8>,
    dirty_rect: Box2d,
    i: int,
)
    requires
        mergeable(order, old_buf, new_buf, dirty_rect),
        0 <= i < blob_entries(order, new_buf).len(),
    ensures
        ({
            let old = blob_entries(order, old_buf);
            let new = blob_entries(order, new_buf);
            let blob = merged(order, old_buf, new_buf, dirty_rect);
            let entry = blob_entries(order, blob)[i];
            let (buf, source) = if new[i].bounds.within(dirty_rect) {
                (new_buf, new[i])
            } else {
                (old_buf, kept_entry(old, new, i))
            };
            &&& is_blob(order, blob)
            &&& blob_entries(order, blob).len() == new.len()
            &&& entry.bounds == new[i].bounds
            &&& entry.begin <= entry.extra_end <= index_offset(order, blob)
            &&& blob.subrange(entry.begin as int, entry.extra_end as int) == buf.subrange(
                source.begin as int,
                source.extra_end as int,
            )
            &&& entry.extra_end - entry.end == source.extra_end - source.end
        }),
{
    let items = merged_items(order, old_buf, new_buf, dirty_rect);
    lemma_items_data_prefix(items, i + 1);
    law_read_what_was_written(order, items);
    law_item_bytes_are_kept(order, items, i);
    assert(source_fits(order, old_buf, new_buf, dirty_rect, i));
    assert(items[i] == merged_item(order, old_buf, new_buf, dirty_rect, i));
    assert(items[i].extra_size <= items_data(items.take(i + 1)).len());
    assert(item_entries(items)[i] == item_entry(items, i));
}

/// A merged blob can be read even where it has no items.
pub proof fn law_merged_is_blob(
    order: ByteOrder,
    old_buf: Seq<u8>,
    new_buf: Seq<u8>,
    dirty_rect: Box2d,
)
    requires
        mergeable(order, old_buf, new_buf, dirty_rect),
    ensures
        is_blob(order, merged(order, old_buf, new_buf, dirty_rect)),
        blob_entries(order, merged(order, old_buf, new_buf, dirty_rect)).len() == blob_entries(
            order,
            new_buf,
        ).len(),
{
    law_read_what_was_written(order, merged_items(order, old_buf, new_buf, dirty_rect));
}

/// The `k`-th item with some bounds stands somewhere.
proof fn lemma_find_kth(entries: Seq<Entry>, bounds: Box2d, k: int) -> (at: int)
    requires
        0 <= k < with_bounds(entries, bounds).len(),
    ensures
        0 <= at < entries.len(),
        entries[at] == with_bounds(entries, bounds)[k],
        entries[at].bounds == bounds,
        with_bounds(entries.take(at), bounds).len() == k,
    decreases entries.len(),
{
    reveal(Seq::filter);
    let last = entries.len() - 1;
    assert(entries.take(last) =~= entries.drop_last());
    if entries.last().bounds == bounds && k == with_bounds(entries, bounds).len() - 1 {
        last
    } else {
        let at = lemma_find_kth(entries.drop_last(), bounds, k);
        assert(entries.drop_last().take(at) =~= entries.take(at));
        at
    }
}

/// An item is among the items with its bounds, after as many as come before
/// it.
proof fn lemma_rank(entries: Seq<Entry>, at: int)
    requires
        0 <= at < entries.len(),
    ensures
        with_bounds(entries.take(at), entries[at].bounds).len() < with_bounds(
            entries,
            entries[at].bounds,
        ).len(),
        with_bounds(entries, entries[at].bounds)[with_bounds(
            entries.take(at),
            entries[at].bounds,
        ).len() as int] == entries[at],
{
    let same = |e: Entry| e.bounds == entries[at].bounds;
    lemma_filter_around(entries, at, same);
    lemma_filter_one(entries[at], same);
}

/// The old item that stands in for a new one is an old item with the same
/// bounds.
pub proof fn law_kept_entry_is_old(
    old: Seq<Entry>,
    new: Seq<Entry>,
    dirty_rect: Box2d,
    i: int,
) -> (at: int)
    requires
        same_outside(old, new, dirty_rect),
        0 <= i < new.len(),
        !new[i].bounds.within(dirty_rect),
    ensures
        0 <= at < old.len(),
        kept_entry(old, new, i) == old[at],
        old[at].bounds == new[i].bounds,
        with_bounds(old.take(at), old[at].bounds).len() == with_bounds(
            new.take(i),
            new[i].bounds,
        ).len(),
{
    lemma_rank(new, i);
    assert(with_bounds(old, new[i].bounds).len() == with_bounds(new, new[i].bounds).len());
    lemma_find_kth(old, new[i].bounds, with_bounds(new.take(i), new[i].bounds).len() as int)
}

/// No old item outside `dirty_rect` is lost: each stands in for a new one.
pub proof fn law_outside_items_are_kept(
    old: Seq<Entry>,
    new: Seq<Entry>,
    dirty_rect: Box2d,
    at: int,
) -> (i: int)
    requires
        same_outside(old, new, dirty_rect),
        0 <= at < old.len(),
        !old[at].bounds.within(dirty_rect),
    ensures
        0 <= i < new.len(),
        new[i].bounds == old[at].bounds,
        kept_entry(old, new, i) == old[at],
        with_bounds(old.take(at), old[at].bounds).len() == with_bounds(
            new.take(i),
            new[i].bounds,
        ).len(),
{
    lemma_rank(old, at);
    assert(with_bounds(old, old[at].bounds).len() == with_bounds(new, old[at].bounds).len());
    lemma_find_kth(new, old[at].bounds, with_bounds(old.take(at), old[at].bounds).len() as int)
}

/// Lists with the same bounds have as many items with any bounds.
proof fn lemma_same_bounds_same_count(a: Seq<Entry>, b: Seq<Entry>, bounds: Box2d)
    requires
        a.map_values(|e: Entry| e.bounds) == b.map_values(|e: Entry| e.bounds),
    ensures
        with_bounds(a, bounds).len() == with_bounds(b, bounds).len(),
    decreases a.len(),
{
    reveal(Seq::filter);
    let f = |e: Entry| e.bounds;
    assert(a.map_values(f).len() == b.map_values(f).len());
    if a.len() > 0 {
        assert(a.map_values(f).last() == b.map_values(f).last());
        assert(a.drop_last().map_values(f) =~= a.map_values(f).drop_last());
        assert(b.drop_last().map_values(f) =~= b.map_values(f).drop_last());
        lemma_same_bounds_same_count(a.drop_last(), b.drop_last(), bounds);
    }
}

/// Where the old and the new items outside `dirty_rect` have the same bounds
/// in the same order, they match, and each old one stands in for the new one
/// in the same place.
pub proof fn law_same_order(old: Seq<Entry>, new: Seq<Entry>, dirty_rect: Box2d)
    requires
        outside(old, dirty_rect).map_values(|e: Entry| e.bounds) == outside(
            new,
            dirty_rect,
        ).map_values(|e: Entry| e.bounds),
    ensures
        same_outside(old, new, dirty_rect),
        forall|i: int|
            #![trigger new[i]]
            0 <= i < new.len() && !new[i].bounds.within(dirty_rect) ==> kept_entry(old, new, i)
                == outside(old, dirty_rect)[outside(new.take(i), dirty_rect).len() as int],
{
    let p = outside(old, dirty_rect);
    let q = outside(new, dirty_rect);
    let f = |e: Entry| e.bounds;
    assert forall|bounds: Box2d| !bounds.within(dirty_rect) implies #[trigger] with_bounds(
        old,
        bounds,
    ).len() == with_bounds(new, bounds).len() by {
        lemma_with_bounds_outside(old, dirty_rect, bounds);
        lemma_with_bounds_outside(new, dirty_rect, bounds);
        lemma_same_bounds_same_count(p, q, bounds);
    }
    assert forall|i: int|
        #![trigger new[i]]
        0 <= i < new.len() && !new[i].bounds.within(dirty_rect) implies kept_entry(old, new, i)
        == p[outside(new.take(i), dirty_rect).len() as int] by {
        let bounds = new[i].bounds;
        let kept = |e: Entry| !e.bounds.within(dirty_rect);
        let head = outside(new.take(i), dirty_rect);
        let r = head.len() as int;
        lemma_filter_around(new, i, kept);
        lemma_filter_one(new[i], kept);
        assert(q.take(r) =~= head);
        assert(q[r] == new[i]);
        assert(p.map_values(f).len() == q.map_values(f).len());
        assert(p.map_values(f)[r] == q.map_values(f)[r]);
        assert(p.take(r).map_values(f) =~= p.map_values(f).take(r));
        assert(q.take(r).map_values(f) =~= q.map_values(f).take(r));
        lemma_same_bounds_same_count(p.take(r), q.take(r), bounds);
        lemma_with_bounds_outside(new.take(i), dirty_rect, bounds);
        lemma_with_bounds_outside(old, dirty_rect, bounds);
        lemma_rank(p, r);
    }
}

/// The old item at `k` and the new one at `i` have the same bounds, and as many
/// items with these bounds come before the one as before the other.
spec fn same_rank(old: Seq<Entry>, new: Seq<Entry>, i: int, k: int) -> bool {
    &&& 0 <= k < old.len()
    &&& old[k].bounds == new[i].bounds
    &&& with_bounds(old.take(k), old[k].bounds).len() == with_bounds(
        new.take(i),
        new[i].bounds,
    ).len()
}

/// Of two items with the same bounds, fewer such items come before the first.
proof fn lemma_rank_grows(entries: Seq<Entry>, j: int, k: int)
    requires
        0 <= j < k < entries.len(),
        entries[j].bounds == entries[k].bounds,
    ensures
        with_bounds(entries.take(j), entries[j].bounds).len() < with_bounds(
            entries.take(k),
            entries[k].bounds,
        ).len(),
{
    lemma_rank(entries.take(k), j);
    assert(entries.take(k).take(j) =~= entries.take(j));
}

/// What becomes of the old items: each new item outside `dirty_rect` is paired
/// with an old one that has the same bounds. Items with the same bounds are
/// paired in order, and every old item outside `dirty_rect` has its pair.
pub proof fn law_outside_items_are_paired(
    old: Seq<Entry>,
    new: Seq<Entry>,
    dirty_rect: Box2d,
) -> (pair: Seq<int>)
    requires
        same_outside(old, new, dirty_rect),
    ensures
        pair.len() == new.len(),
        forall|i: int|
            #![trigger pair[i]]
            0 <= i < new.len() && !new[i].bounds.within(dirty_rect) ==> 0 <= pair[i] < old.len()
                && old[pair[i]].bounds == new[i].bounds && old[pair[i]] == kept_entry(old, new, i),
        forall|i: int, j: int|
            #![trigger pair[i], pair[j]]
            0 <= i < j < new.len() && !new[i].bounds.within(dirty_rect) && new[i].bounds
                == new[j].bounds ==> pair[i] < pair[j],
        forall|k: int|
            #![trigger old[k]]
            0 <= k < old.len() && !old[k].bounds.within(dirty_rect) ==> exists|i: int|
                0 <= i < new.len() && !new[i].bounds.within(dirty_rect) && #[trigger] pair[i] == k,
{
    let pair = Seq::new(new.len(), |i: int| choose|k: int| same_rank(old, new, i, k));
    assert forall|i: int|
        #![trigger pair[i]]
        0 <= i < new.len() && !new[i].bounds.within(dirty_rect) implies same_rank(
        old,
        new,
        i,
        pair[i],
    ) && old[pair[i]] == kept_entry(old, new, i) by {
        let k = law_kept_entry_is_old(old, new, dirty_rect, i);
        assert(same_rank(old, new, i, k));
        lemma_same_rank_is_unique(old, new, i, k, pair[i]);
    }
    assert forall|i: int, j: int|
        #![trigger pair[i], pair[j]]
        0 <= i < j < new.len() && !new[i].bounds.within(dirty_rect) && new[i].bounds
            == new[j].bounds implies pair[i] < pair[j] by {
        lemma_rank_grows(new, i, j);
        if pair[j] < pair[i] {
            lemma_rank_grows(old, pair[j], pair[i]);
        }
    }
    assert forall|k: int|
        #![trigger old[k]]
        0 <= k < old.len() && !old[k].bounds.within(dirty_rect) implies exists|i: int|
        0 <= i < new.len() && !new[i].bounds.within(dirty_rect) && #[trigger] pair[i] == k by {
        let i = law_outside_items_are_kept(old, new, dirty_rect, k);
        assert(same_rank(old, new, i, k));
        lemma_same_rank_is_unique(old, new, i, k, pair[i]);
    }
    pair
}

proof fn lemma_same_rank_is_unique(old: Seq<Entry>, new: Seq<Entry>, i: int, j: int, k: int)
    requires
        same_rank(old, new, i, j),
        same_rank(old, new, i, k),
    ensures
        j == k,
{
    if j < k {
        lemma_rank_grows(old, j, k);
    } else if k < j {
        lemma_rank_grows(old, k, j);
    }
}

/// What merging does, item by item: the result can be read and has the new
/// items with their bounds, in their order. An item within `dirty_rect` has its
/// new bytes. Any other has the bytes of the old item that it is paired with:
/// that has the same bounds, items with the same bounds are paired in order,
/// and every old item outside `dirty_rect` has its pair. Each item ends in as
/// much extra data as it did where its bytes come from.
pub proof fn law_merge_item_by_item(
    order: ByteOrder,
    old_buf: Seq<u8>,
    new_buf: Seq<u8>,
    dirty_rect: Box2d,
) -> (pair: Seq<int>)
    requires
        mergeable(order, old_buf, new_buf, dirty_rect),
    ensures
        ({
            let old = blob_entries(order, old_buf);
            let new = blob_entries(order, new_buf);
            let blob = merged(order, old_buf, new_buf, dirty_rect);
            let result = blob_entries(order, blob);
            &&& is_blob(order, blob)
            &&& result.len() == new.len()
            &&& pair.len() == new.len()
            &&& forall|i: int|
                #![trigger result[i]]
                #![trigger pair[i]]
                0 <= i < new.len() ==> {
                    &&& result[i].bounds == new[i].bounds
                    &&& result[i].begin <= result[i].extra_end <= index_offset(order, blob)
                    &&& new[i].bounds.within(dirty_rect) ==> {
                        &&& blob.subrange(result[i].begin as int, result[i].extra_end as int)
                            == new_buf.subrange(new[i].begin as int, new[i].extra_end as int)
                        &&& result[i].extra_end - result[i].end == new[i].extra_end - new[i].end
                    }
                    &&& !new[i].bounds.within(dirty_rect) ==> {
                        &&& 0 <= pair[i] < old.len()
                        &&& old[pair[i]].bounds == new[i].bounds
                        &&& blob.subrange(result[i].begin as int, result[i].extra_end as int)
                            == old_buf.subrange(
                            old[pair[i]].begin as int,
                            old[pair[i]].extra_end as int,
                        )
                        &&& result[i].extra_end - result[i].end == old[pair[i]].extra_end
                            - old[pair[i]].end
                    }
                }
            &&& forall|i: int, j: int|
                #![trigger pair[i], pair[j]]
                0 <= i < j < new.len() && !new[i].bounds.within(dirty_rect) && new[i].bounds
                    == new[j].bounds ==> pair[i] < pair[j]
            &&& forall|k: int|
                #![trigger old[k]]
                0 <= k < old.len() && !old[k].bounds.within(dirty_rect) ==> exists|i: int|
                    0 <= i < new.len() && !new[i].bounds.within(dirty_rect) && #[trigger] pair[i]
                        == k
        }),
{
    let old = blob_entries(order, old_buf);
    let new = blob_entries(order, new_buf);
    let blob = merged(order, old_buf, new_buf, dirty_rect);
    let result = blob_entries(order, blob);
    let pair = law_outside_items_are_paired(old, new, dirty_rect);
    law_merged_is_blob(order, old_buf, new_buf, dirty_rect);
    assert forall|i: int|
        #![trigger result[i]]
        #![trigger pair[i]]
        0 <= i < new.len() implies {
        &&& result[i].bounds == new[i].bounds
        &&& result[i].begin <= result[i].extra_end <= index_offset(order, blob)
        &&& new[i].bounds.within(dirty_rect) ==> {
            &&& blob.subrange(result[i].begin as int, result[i].extra_end as int)
                == new_buf.subrange(new[i].begin as int, new[i].extra_end as int)
            &&& result[i].extra_end - result[i].end == new[i].extra_end - new[i].end
        }
        &&& !new[i].bounds.within(dirty_rect) ==> {
            &&& 0 <= pair[i] < old.len()
            &&& old[pair[i]].bounds == new[i].bounds
            &&& blob.subrange(result[i].begin as int, result[i].extra_end as int)
                == old_buf.subrange(old[pair[i]].begin as int, old[pair[i]].extra_end as int)
            &&& result[i].extra_end - result[i].end == old[pair[i]].extra_end - old[pair[i]].end
        }
    } by {
        law_merged_blob(order, old_buf, new_buf, dirty_rect, i);
    }
    pair
}

/// A new item with pixels, all of which lie in the dirty rectangle, has its new
/// bytes in the result.
pub proof fn law_redrawn_items_are_new(
    order: ByteOrder,
    old_buf: Seq<u8>,
    new_buf: Seq<u8>,
    dirty_rect: Box2d,
    i: int,
)
    requires
        mergeable(order, old_buf, new_buf, dirty_rect),
        0 <= i < blob_entries(order, new_buf).len(),
        ({
            let bounds = blob_entries(order, new_buf)[i].bounds;
            &&& bounds.x1 < bounds.x2
            &&& bounds.y1 < bounds.y2
            &&& forall|x: int, y: int| #[trigger]
                bounds.pixels().contains((x, y)) ==> dirty_rect.pixels().contains((x, y))
        }),
    ensures
        ({
            let new = blob_entries(order, new_buf)[i];
            let blob = merged(order, old_buf, new_buf, dirty_rect);
            let entry = blob_entries(order, blob)[i];
            &&& entry.bounds == new.bounds
            &&& blob.subrange(entry.begin as int, entry.extra_end as int) == new_buf.subrange(
                new.begin as int,
                new.extra_end as int,
            )
            &&& entry.extra_end - entry.end == new.extra_end - new.end
        }),
{
    law_within_is_pixel_containment(blob_entries(order, new_buf)[i].bounds, dirty_rect);
    law_merged_blob(order, old_buf, new_buf, dirty_rect, i);
}

/// An item with a pixel outside the dirty rectangle has in the result the bytes
/// of an old item with the same bounds.
pub proof fn law_other_items_are_old(
    order: ByteOrder,
    old_buf: Seq<u8>,
    new_buf: Seq<u8>,
    dirty_rect: Box2d,
    i: int,
    x: int,
    y: int,
) -> (k: int)
    requires
        mergeable(order, old_buf, new_buf, dirty_rect),
        0 <= i < blob_entries(order, new_buf).len(),
        blob_entries(order, new_buf)[i].bounds.pixels().contains((x, y)),
        !dirty_rect.pixels().contains((x, y)),
    ensures
        0 <= k < blob_entries(order, old_buf).len(),
        ({
            let old = blob_entries(order, old_buf)[k];
            let new = blob_entries(order, new_buf)[i];
            let blob = merged(order, old_buf, new_buf, dirty_rect);
            let entry = blob_entries(order, blob)[i];
            &&& old.bounds == new.bounds
            &&& entry.bounds == new.bounds
            &&& blob.subrange(entry.begin as int, entry.extra_end as int) == old_buf.subrange(
                old.begin as int,
                old.extra_end as int,
            )
            &&& entry.extra_end - entry.end == old.extra_end - old.end
        }),
{
    let old = blob_entries(order, old_buf);
    let new = blob_entries(order, new_buf);
    law_pixels_of_a_box(new[i].bounds, x, y);
    law_within_is_pixel_containment(new[i].bounds, dirty_rect);
    law_merged_blob(order, old_buf, new_buf, dirty_rect, i);
    law_kept_entry_is_old(old, new, dirty_rect, i)
}

/// The positions of the items with some bounds.
spec fn places(entries: Seq<Entry>, bounds: Box2d) -> Set<int> {
    Set::new(|i: int| 0 <= i < entries.len() && entries[i].bounds == bounds)
}

proof fn lemma_places_len(entries: Seq<Entry>, bounds: Box2d)
    ensures
        places(entries, bounds).finite(),
        places(entries, bounds).len() == with_bounds(entries, bounds).len(),
    decreases entries.len(),
{
    reveal(Seq::filter);
    if entries.len() == 0 {
        assert(places(entries, bounds) =~= Set::empty());
    } else {
        let last = entries.len() - 1;
        lemma_places_len(entries.drop_last(), bounds);
        if entries.last().bounds == bounds {
            assert(places(entries, bounds) =~= places(entries.drop_last(), bounds).insert(last));
        } else {
            assert(places(entries, bounds) =~= places(entries.drop_last(), bounds));
        }
    }
}

/// Items that can be paired match: where each new item outside `dirty_rect` has
/// an old one with the same bounds to itself, and every old item outside
/// `dirty_rect` is some new item's, there are as many old as new items with any
/// bounds outside `dirty_rect`.
pub proof fn law_paired_items_match(
    old: Seq<Entry>,
    new: Seq<Entry>,
    dirty_rect: Box2d,
    pair: spec_fn(int) -> int,
)
    requires
        forall|i: int|
            #![trigger pair(i)]
            0 <= i < new.len() && !new[i].bounds.within(dirty_rect) ==> 0 <= pair(i) < old.len()
                && old[pair(i)].bounds == new[i].bounds,
        forall|i: int, j: int|
            #![trigger pair(i), pair(j)]
            0 <= i < j < new.len() && !new[i].bounds.within(dirty_rect)
                && !new[j].bounds.within(dirty_rect) ==> pair(i) != pair(j),
        forall|k: int|
            #![trigger old[k]]
            0 <= k < old.len() && !old[k].bounds.within(dirty_rect) ==> exists|i: int|
                0 <= i < new.len() && !new[i].bounds.within(dirty_rect) && #[trigger] pair(i) == k,
    ensures
        same_outside(old, new, dirty_rect),
{
    assert forall|bounds: Box2d| !bounds.within(dirty_rect) implies #[trigger] with_bounds(
        old,
        bounds,
    ).len() == with_bounds(new, bounds).len() by {
        let from = places(new, bounds);
        let to = places(old, bounds);
        lemma_places_len(old, bounds);
        lemma_places_len(new, bounds);
        assert(injective_on(pair, from));
        assert(from.map(pair) =~= to) by {
            assert forall|k: int| to.contains(k) implies from.map(pair).contains(k) by {
                assert(old[k].bounds == bounds);
                let i = choose|i: int|
                    0 <= i < new.len() && !new[i].bounds.within(dirty_rect) && #[trigger] pair(i)
                        == k;
                assert(from.contains(i));
            }
        }
        lemma_map_size(from, to, pair);
    }
}

/// Blobs that can be merged can be read, and what goes into the result lies in
/// their buffers: the new items within `dirty_rect` and the old ones outside it.
proof fn lemma_mergeable_is_sound(
    order: ByteOrder,
    old_buf: Seq<u8>,
    new_buf: Seq<u8>,
    dirty_rect: Box2d,
)
    requires
        mergeable(order, old_buf, new_buf, dirty_rect),
    ensures
        is_blob(order, old_buf),
        is_blob(order, new_buf),
        forall|i: int|
            #![trigger blob_entries(order, new_buf)[i]]
            0 <= i < blob_entries(order, new_buf).len() && blob_entries(
                order,
                new_buf,
            )[i].bounds.within(dirty_rect) ==> {
                let entry = blob_entries(order, new_buf)[i];
                entry.begin <= entry.extra_end <= new_buf.len() && entry.end <= entry.extra_end
            },
        forall|k: int|
            #![trigger blob_entries(order, old_buf)[k]]
            0 <= k < blob_entries(order, old_buf).len() && !blob_entries(
                order,
                old_buf,
            )[k].bounds.within(dirty_rect) ==> {
                let entry = blob_entries(order, old_buf)[k];
                entry.begin <= entry.extra_end <= old_buf.len() && entry.end <= entry.extra_end
            },
        merged(order, old_buf, new_buf, dirty_rect).len() <= isize::MAX,
{
    let old = blob_entries(order, old_buf);
    let new = blob_entries(order, new_buf);
    assert forall|i: int|
        #![trigger blob_entries(order, new_buf)[i]]
        0 <= i < new.len() && new[i].bounds.within(dirty_rect) implies new[i].begin
        <= new[i].extra_end <= new_buf.len() && new[i].end <= new[i].extra_end by {
        assert(source_fits(order, old_buf, new_buf, dirty_rect, i));
    }
    assert forall|k: int|
        #![trigger blob_entries(order, old_buf)[k]]
        0 <= k < old.len() && !old[k].bounds.within(dirty_rect) implies old[k].begin
        <= old[k].extra_end <= old_buf.len() && old[k].end <= old[k].extra_end by {
        let i = law_outside_items_are_kept(old, new, dirty_rect, k);
        assert(source_fits(order, old_buf, new_buf, dirty_rect, i));
    }
}

/// The items that merging writes: those of the new blob, with their bounds. One
/// within `dirty_rect` has the new bytes, any other those of the old item that
/// it is paired with.
pub proof fn law_merged_items(
    order: ByteOrder,
    old_buf: Seq<u8>,
    new_buf: Seq<u8>,
    dirty_rect: Box2d,
) -> (pair: Seq<int>)
    requires
        same_outside(blob_entries(order, old_buf), blob_entries(order, new_buf), dirty_rect),
    ensures
        ({
            let old = blob_entries(order, old_buf);
            let new = blob_entries(order, new_buf);
            let items = merged_items(order, old_buf, new_buf, dirty_rect);
            &&& items.len() == new.len()
            &&& pair.len() == new.len()
            &&& forall|i: int|
                #![trigger items[i]]
                #![trigger pair[i]]
                0 <= i < new.len() ==> {
                    let (buf, source) = if new[i].bounds.within(dirty_rect) {
                        (new_buf, new[i])
                    } else {
                        (old_buf, old[pair[i]])
                    };
                    &&& new[i].bounds.within(dirty_rect) || 0 <= pair[i] < old.len()
                    &&& source.bounds == new[i].bounds
                    &&& items[i].bounds == new[i].bounds
                    &&& items[i].data == buf.subrange(source.begin as int, source.extra_end as int)
                    &&& items[i].extra_size == (source.extra_end - source.end) as nat
                }
            &&& forall|i: int, j: int|
                #![trigger pair[i], pair[j]]
                0 <= i < j < new.len() && !new[i].bounds.within(dirty_rect) && new[i].bounds
                    == new[j].bounds ==> pair[i] < pair[j]
        }),
{
    let new = blob_entries(order, new_buf);
    let items = merged_items(order, old_buf, new_buf, dirty_rect);
    let pair = law_outside_items_are_paired(blob_entries(order, old_buf), new, dirty_rect);
    assert forall|i: int|
        #![trigger items[i]]
        #![trigger pair[i]]
        0 <= i < new.len() implies items[i] == merged_item(
        order,
        old_buf,
        new_buf,
        dirty_rect,
        i,
    ) by {
    }
    pair
}

/// When blobs can be merged: both can be read, their items outside `dirty_rect`
/// match, the new items within it and the old ones outside it lie in their
/// buffers, the extra data of each item starts inside the result, and the
/// result can be held in memory.
pub proof fn law_when_blobs_merge(
    order: ByteOrder,
    old_buf: Seq<u8>,
    new_buf: Seq<u8>,
    dirty_rect: Box2d,
)
    ensures
        ({
            let old = blob_entries(order, old_buf);
            let new = blob_entries(order, new_buf);
            let items = merged_items(order, old_buf, new_buf, dirty_rect);
            mergeable(order, old_buf, new_buf, dirty_rect) <==> {
                &&& is_blob(order, old_buf)
                &&& is_blob(order, new_buf)
                &&& same_outside(old, new, dirty_rect)
                &&& forall|i: int|
                    #![trigger new[i]]
                    0 <= i < new.len() && new[i].bounds.within(dirty_rect) ==> new[i].begin
                        <= new[i].extra_end <= new_buf.len() && new[i].end <= new[i].extra_end
                &&& forall|k: int|
                    #![trigger old[k]]
                    0 <= k < old.len() && !old[k].bounds.within(dirty_rect) ==> old[k].begin
                        <= old[k].extra_end <= old_buf.len() && old[k].end <= old[k].extra_end
                &&& forall|i: int|
                    #![trigger items[i]]
                    0 <= i < items.len() ==> items[i].extra_size <= items_data(
                        items.take(i + 1),
                    ).len()
                &&& items_data(items).len() + new.len() * (2 * word_size() + 16) + word_size()
                    <= isize::MAX
            }
        }),
{
    let old = blob_entries(order, old_buf);
    let new = blob_entries(order, new_buf);
    let items = merged_items(order, old_buf, new_buf, dirty_rect);
    lemma_items_index_len(order, items);
    lemma_uint_bytes_len(order, items_data(items).len(), word_size());
    if mergeable(order, old_buf, new_buf, dirty_rect) {
        lemma_mergeable_is_sound(order, old_buf, new_buf, dirty_rect);
    }
    if same_outside(old, new, dirty_rect) && (forall|i: int|
        #![trigger new[i]]
        0 <= i < new.len() && new[i].bounds.within(dirty_rect) ==> new[i].begin <= new[i].extra_end
            <= new_buf.len() && new[i].end <= new[i].extra_end) && (forall|k: int|
        #![trigger old[k]]
        0 <= k < old.len() && !old[k].bounds.within(dirty_rect) ==> old[k].begin
            <= old[k].extra_end <= old_buf.len() && old[k].end <= old[k].extra_end) {
        assert forall|i: int| 0 <= i < items.len() implies #[trigger] source_fits(
            order,
            old_buf,
            new_buf,
            dirty_rect,
            i,
        ) by {
            assert(new[i].bounds == new[i].bounds);
            if !new[i].bounds.within(dirty_rect) {
                let at = law_kept_entry_is_old(old, new, dirty_rect, i);
                assert(old[at].bounds == new[i].bounds);
            }
        }
    }
}

/// Blobs with monotonic offsets whose items outside `dirty_rect` match can be
/// merged, as long as the result can be held in memory, and the offsets of the
/// result are monotonic again.
pub proof fn law_monotonic_blobs_merge(
    order: ByteOrder,
    old_buf: Seq<u8>,
    new_buf: Seq<u8>,
    dirty_rect: Box2d,
)
    requires
        monotonic(order, old_buf),
        monotonic(order, new_buf),
        same_outside(blob_entries(order, old_buf), blob_entries(order, new_buf), dirty_rect),
        merged(order, old_buf, new_buf, dirty_rect).len() <= max_len(),
    ensures
        mergeable(order, old_buf, new_buf, dirty_rect),
        monotonic(order, merged(order, old_buf, new_buf, dirty_rect)),
        tight(order, merged(order, old_buf, new_buf, dirty_rect)),
{
    let old = blob_entries(order, old_buf);
    let new = blob_entries(order, new_buf);
    let items = merged_items(order, old_buf, new_buf, dirty_rect);
    let blob = blob_of(order, items);
    assert forall|i: int| 0 <= i < items.len() implies #[trigger] source_fits(
        order,
        old_buf,
        new_buf,
        dirty_rect,
        i,
    ) && items[i].extra_size <= items[i].data.len() by {
        assert(items[i] == merged_item(order, old_buf, new_buf, dirty_rect, i));
        if new[i].bounds.within(dirty_rect) {
            assert(new[i].begin <= new[i].end);
        } else {
            let at = law_kept_entry_is_old(old, new, dirty_rect, i);
            assert(old[at].begin <= old[at].end);
        }
    }
    assert forall|i: int| 0 <= i < items.len() implies (#[trigger] items[i]).extra_size
        <= items_data(items.take(i + 1)).len() by {
        assert(source_fits(order, old_buf, new_buf, dirty_rect, i));
        lemma_items_data_next(items, i);
    }
    law_read_what_was_written(order, items);
    assert forall|i: int| 0 <= i < items.len() implies (#[trigger] item_entries(items)[i]).begin
        <= item_entries(items)[i].end <= item_entries(items)[i].extra_end
        <= items_data(items).len() by {
        assert(source_fits(order, old_buf, new_buf, dirty_rect, i));
        law_item_bytes_are_kept(order, items, i);
        lemma_items_data_prefix(items, i + 1);
    }
    assert(items.take(items.len() as int) =~= items);
}

/// Two lists with the same bounds in the same order: the item at `i` of the
/// one stands in for the item at `i` of the other.
proof fn lemma_kept_in_place(old: Seq<Entry>, new: Seq<Entry>, i: int)
    requires
        old.map_values(|e: Entry| e.bounds) == new.map_values(|e: Entry| e.bounds),
        0 <= i < new.len(),
    ensures
        old.len() == new.len(),
        kept_entry(old, new, i) == old[i],
{
    let f = |e: Entry| e.bounds;
    assert(old.map_values(f).len() == new.map_values(f).len());
    assert(old.map_values(f)[i] == new.map_values(f)[i]);
    assert(old.take(i).map_values(f) =~= old.map_values(f).take(i));
    assert(new.take(i).map_values(f) =~= new.map_values(f).take(i));
    lemma_same_bounds_same_count(old.take(i), new.take(i), new[i].bounds);
    lemma_rank(old, i);
}

/// Merging the same update once more changes nothing.
pub proof fn law_merge_twice(
    order: ByteOrder,
    old_buf: Seq<u8>,
    new_buf: Seq<u8>,
    dirty_rect: Box2d,
)
    requires
        mergeable(order, old_buf, new_buf, dirty_rect),
    ensures
        mergeable(
            order,
            merged(order, old_buf, new_buf, dirty_rect),
            new_buf,
            dirty_rect,
        ),
        merged(order, merged(order, old_buf, new_buf, dirty_rect), new_buf, dirty_rect) == merged(
            order,
            old_buf,
            new_buf,
            dirty_rect,
        ),
{
    let blob = merged(order, old_buf, new_buf, dirty_rect);
    let old = blob_entries(order, blob);
    let new = blob_entries(order, new_buf);
    let items = merged_items(order, old_buf, new_buf, dirty_rect);
    let again = merged_items(order, blob, new_buf, dirty_rect);
    law_read_what_was_written(order, items);
    assert(old.map_values(|e: Entry| e.bounds) =~= new.map_values(|e: Entry| e.bounds));
    assert forall|bounds: Box2d| !bounds.within(dirty_rect) implies #[trigger] with_bounds(
        old,
        bounds,
    ).len() == with_bounds(new, bounds).len() by {
        lemma_same_bounds_same_count(old, new, bounds);
    }
    assert forall|i: int| 0 <= i < new.len() implies #[trigger] source_fits(
        order,
        blob,
        new_buf,
        dirty_rect,
        i,
    ) && again[i] == items[i] by {
        lemma_kept_in_place(old, new, i);
        law_merged_blob(order, old_buf, new_buf, dirty_rect, i);
        assert(source_fits(order, old_buf, new_buf, dirty_rect, i));
        assert(items[i] == merged_item(order, old_buf, new_buf, dirty_rect, i));
        assert(again[i] == merged_item(order, blob, new_buf, dirty_rect, i));
    }
    assert(again =~= items) by {
        assert forall|i: int| 0 <= i < again.len() implies again[i] == items[i] by {
            assert(source_fits(order, blob, new_buf, dirty_rect, i));
        }
    }
}

/// Where all items of both blobs lie within `dirty_rect`, the result holds
/// the new blob's items.
pub proof fn law_all_dirty(
    order: ByteOrder,
    old_buf: Seq<u8>,
    new_buf: Seq<u8>,
    dirty_rect: Box2d,
)
    requires
        forall|i: int|
            0 <= i < blob_entries(order, old_buf).len() ==> (#[trigger] blob_entries(
                order,
                old_buf,
            )[i]).bounds.within(dirty_rect),
        forall|i: int|
            0 <= i < blob_entries(order, new_buf).len() ==> (#[trigger] blob_entries(
                order,
                new_buf,
            )[i]).bounds.within(dirty_rect),
    ensures
        same_outside(blob_entries(order, old_buf), blob_entries(order, new_buf), dirty_rect),
        merged(order, old_buf, new_buf, dirty_rect) == blob_of(order, blob_items(order, new_buf)),
{
    let old = blob_entries(order, old_buf);
    let new = blob_entries(order, new_buf);
    assert forall|bounds: Box2d| !bounds.within(dirty_rect) implies #[trigger] with_bounds(
        old,
        bounds,
    ).len() == with_bounds(new, bounds).len() by {
        if with_bounds(old, bounds).len() > 0 {
            let at = lemma_find_kth(old, bounds, 0);
            assert(old[at].bounds.within(dirty_rect));
        }
        if with_bounds(new, bounds).len() > 0 {
            let at = lemma_find_kth(new, bounds, 0);
            assert(new[at].bounds.within(dirty_rect));
        }
    }
    assert(merged_items(order, old_buf, new_buf, dirty_rect) =~= blob_items(order, new_buf));
}

/// Merging a blob with itself keeps its items, whatever the dirty rectangle,
/// and gives the blob back where its items take up all of its data.
pub proof fn law_merge_with_itself(order: ByteOrder, blob: Seq<u8>, dirty_rect: Box2d)
    requires
        monotonic(order, blob),
        blob.len() <= max_len(),
    ensures
        mergeable(order, blob, blob, dirty_rect),
        merged(order, blob, blob, dirty_rect) == blob_of(order, blob_items(order, blob)),
        tight(order, blob) ==> merged(order, blob, blob, dirty_rect) == blob,
{
    let entries = blob_entries(order, blob);
    let items = blob_items(order, blob);
    assert forall|i: int| 0 <= i < entries.len() implies merged_item(
        order,
        blob,
        blob,
        dirty_rect,
        i,
    ) == #[trigger] items[i] by {
        lemma_rank(entries, i);
    }
    assert(merged_items(order, blob, blob, dirty_rect) =~= items);
    lemma_entries_of_blob_items(order, blob);
    lemma_index_of_blob_items(order, blob);
    lemma_uint_bytes_len(order, items_data(items).len(), word_size());
    law_monotonic_blobs_merge(order, blob, blob, dirty_rect);
    if tight(order, blob) {
        law_write_what_was_read(order, blob);
    }
}

} // verus!
