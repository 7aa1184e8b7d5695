//! Looking items up by their bounds, in the order of the blob.

use vstd::prelude::*;

use crate::bytes::{lemma_word_size, word_size, ByteOrder};
use crate::geometry::Box2d;
use crate::index::{
    blob_entries, entry_size, has_index, index_bytes, is_blob, BlobReader, Entry,
};

verus! {

/// The items with these bounds, in order.
pub open spec fn with_bounds(entries: Seq<Entry>, bounds: Box2d) -> Seq<Entry> {
    entries.filter(|e: Entry| e.bounds == bounds)
}

/// The items that do not lie within `rect`, in order.
pub open spec fn outside(entries: Seq<Entry>, rect: Box2d) -> Seq<Entry> {
    entries.filter(|e: Entry| !e.bounds.within(rect))
}

/// The position of the first item with these bounds, or the number of items
/// if there is none.
pub open spec fn first_with_bounds(entries: Seq<Entry>, bounds: Box2d) -> int
    decreases entries.len(),
{
    if entries.len() == 0 || entries[0].bounds == bounds {
        0
    } else {
        1 + first_with_bounds(entries.drop_first(), bounds)
    }
}

/// `first_with_bounds` finds the first match, and nothing only if there is no
/// match.
pub proof fn lemma_first_with_bounds(entries: Seq<Entry>, bounds: Box2d)
    ensures
        0 <= first_with_bounds(entries, bounds) <= entries.len(),
        first_with_bounds(entries, bounds) < entries.len() ==> entries[first_with_bounds(
            entries,
            bounds,
        )].bounds == bounds,
        forall|i: int|
            0 <= i < first_with_bounds(entries, bounds) ==> (#[trigger] entries[i]).bounds
                != bounds,
    decreases entries.len(),
{
    if entries.len() > 0 && entries[0].bounds != bounds {
        lemma_first_with_bounds(entries.drop_first(), bounds);
        assert forall|i: int| 0 <= i < first_with_bounds(entries, bounds) implies (
        #[trigger] entries[i]).bounds != bounds by {
            if i > 0 {
                assert(entries.drop_first()[i - 1] == entries[i]);
            }
        }
    }
}

/// The first match is where the first item with the bounds stands.
pub proof fn lemma_is_first_with_bounds(entries: Seq<Entry>, bounds: Box2d, at: int)
    requires
        0 <= at <= entries.len(),
        at < entries.len() ==> entries[at].bounds == bounds,
        forall|i: int| 0 <= i < at ==> (#[trigger] entries[i]).bounds != bounds,
    ensures
        first_with_bounds(entries, bounds) == at,
{
    lemma_first_with_bounds(entries, bounds);
    let found = first_with_bounds(entries, bounds);
    if found < at {
        assert(entries[found].bounds != bounds);
    } else if at < found {
        assert(entries[at].bounds != bounds);
    }
}

proof fn lemma_filter_none(entries: Seq<Entry>, pred: spec_fn(Entry) -> bool)
    requires
        forall|i: int| 0 <= i < entries.len() ==> !pred(#[trigger] entries[i]),
    ensures
        entries.filter(pred) == Seq::<Entry>::empty(),
    decreases entries.len(),
{
    reveal(Seq::filter);
    if entries.len() > 0 {
        lemma_filter_none(entries.drop_last(), pred);
    }
    assert(entries.filter(pred) =~= Seq::empty());
}

/// One item is kept or not.
pub proof fn lemma_filter_one(entry: Entry, pred: spec_fn(Entry) -> bool)
    ensures
        seq![entry].filter(pred) == if pred(entry) {
            seq![entry]
        } else {
            Seq::empty()
        },
{
    reveal(Seq::filter);
    let empty = seq![entry].drop_last();
    assert(empty.filter(pred) =~= Seq::empty());
    assert(Seq::<Entry>::empty().push(entry) =~= seq![entry]);
}

/// One more item is kept or not.
pub proof fn lemma_filter_push(entries: Seq<Entry>, entry: Entry, pred: spec_fn(Entry) -> bool)
    ensures
        entries.push(entry).filter(pred) == if pred(entry) {
            entries.filter(pred).push(entry)
        } else {
            entries.filter(pred)
        },
{
    reveal(Seq::filter);
    assert(entries.push(entry).drop_last() =~= entries);
}

/// A sequence filtered around one of its items.
pub proof fn lemma_filter_around(entries: Seq<Entry>, at: int, pred: spec_fn(Entry) -> bool)
    requires
        0 <= at < entries.len(),
    ensures
        entries.filter(pred) == entries.take(at).filter(pred) + seq![entries[at]].filter(pred)
            + entries.skip(at + 1).filter(pred),
        entries.remove(at).filter(pred) == entries.take(at).filter(pred) + entries.skip(
            at + 1,
        ).filter(pred),
{
    let head = entries.take(at);
    let tail = entries.skip(at + 1);
    assert(entries =~= head + seq![entries[at]] + tail);
    Seq::filter_distributes_over_add(head + seq![entries[at]], tail, pred);
    Seq::filter_distributes_over_add(head, seq![entries[at]], pred);
    assert(entries.remove(at) =~= head + tail);
    Seq::filter_distributes_over_add(head, tail, pred);
}

/// Taking away the first item with some bounds takes it away from the items
/// with these bounds, and leaves the items with other bounds.
pub proof fn lemma_remove_first(entries: Seq<Entry>, bounds: Box2d)
    requires
        first_with_bounds(entries, bounds) < entries.len(),
    ensures
        with_bounds(entries, bounds).len() > 0,
        with_bounds(entries, bounds)[0] == entries[first_with_bounds(entries, bounds)],
        with_bounds(entries.remove(first_with_bounds(entries, bounds)), bounds) == with_bounds(
            entries,
            bounds,
        ).skip(1),
        forall|other: Box2d|
            other != bounds ==> #[trigger] with_bounds(
                entries.remove(first_with_bounds(entries, bounds)),
                other,
            ) == with_bounds(entries, other),
{
    let at = first_with_bounds(entries, bounds);
    let same = |e: Entry| e.bounds == bounds;
    lemma_first_with_bounds(entries, bounds);
    lemma_filter_around(entries, at, same);
    lemma_filter_one(entries[at], same);
    lemma_filter_none(entries.take(at), same);
    assert(with_bounds(entries, bounds).skip(1) =~= entries.skip(at + 1).filter(same));
    assert(with_bounds(entries.remove(at), bounds) =~= entries.skip(at + 1).filter(same));
    assert forall|other: Box2d| other != bounds implies #[trigger] with_bounds(
        entries.remove(at),
        other,
    ) == with_bounds(entries, other) by {
        let pred = |e: Entry| e.bounds == other;
        lemma_filter_around(entries, at, pred);
        lemma_filter_one(entries[at], pred);
        assert(with_bounds(entries.remove(at), other) =~= with_bounds(entries, other));
    }
}

/// No item has these bounds exactly when the first match is past the end.
pub proof fn lemma_none_with_bounds(entries: Seq<Entry>, bounds: Box2d)
    ensures
        first_with_bounds(entries, bounds) == entries.len() <==> with_bounds(entries, bounds).len()
            == 0,
{
    lemma_first_with_bounds(entries, bounds);
    if first_with_bounds(entries, bounds) == entries.len() {
        lemma_filter_none(entries, |e: Entry| e.bounds == bounds);
    } else {
        lemma_remove_first(entries, bounds);
    }
}

/// Among the items outside a rectangle are all those with bounds outside it.
pub proof fn lemma_with_bounds_outside(entries: Seq<Entry>, rect: Box2d, bounds: Box2d)
    requires
        !bounds.within(rect),
    ensures
        with_bounds(outside(entries, rect), bounds) == with_bounds(entries, bounds),
    decreases entries.len(),
{
    reveal(Seq::filter);
    if entries.len() > 0 {
        lemma_with_bounds_outside(entries.drop_last(), rect, bounds);
        let kept = outside(entries.drop_last(), rect);
        assert(kept.push(entries.last()).drop_last() =~= kept);
    }
}

/// Where the items that a filter keeps stand.
proof fn lemma_filter_positions(entries: Seq<Entry>, pred: spec_fn(Entry) -> bool) -> (at: Seq<int>)
    ensures
        at.len() == entries.filter(pred).len(),
        forall|k: int|
            0 <= k < at.len() ==> 0 <= #[trigger] at[k] < entries.len() && entries.filter(pred)[k]
                == entries[at[k]] && pred(entries[at[k]]),
        forall|j: int, k: int| 0 <= j < k < at.len() ==> #[trigger] at[j] < #[trigger] at[k],
        forall|i: int|
            0 <= i < entries.len() && pred(#[trigger] entries[i]) ==> at.contains(i),
    decreases entries.len(),
{
    reveal(Seq::filter);
    if entries.len() == 0 {
        Seq::empty()
    } else {
        let last = entries.len() - 1;
        let before = lemma_filter_positions(entries.drop_last(), pred);
        if pred(entries.last()) {
            let at = before.push(last);
            assert forall|i: int| 0 <= i < entries.len() && pred(
                #[trigger] entries[i],
            ) implies at.contains(i) by {
                if i == last {
                    assert(at[before.len() as int] == i);
                } else {
                    assert(entries.drop_last()[i] == entries[i]);
                    let k = choose|k: int| 0 <= k < before.len() && before[k] == i;
                    assert(at[k] == i);
                }
            }
            at
        } else {
            assert forall|i: int| 0 <= i < entries.len() && pred(
                #[trigger] entries[i],
            ) implies before.contains(i) by {
                assert(entries.drop_last()[i] == entries[i]);
            }
            before
        }
    }
}

/// The items with some bounds are all those that have them, in their order.
pub proof fn law_items_with_bounds(entries: Seq<Entry>, bounds: Box2d) -> (at: Seq<int>)
    ensures
        at.len() == with_bounds(entries, bounds).len(),
        forall|k: int|
            0 <= k < at.len() ==> 0 <= #[trigger] at[k] < entries.len() && with_bounds(
                entries,
                bounds,
            )[k] == entries[at[k]] && entries[at[k]].bounds == bounds,
        forall|j: int, k: int| 0 <= j < k < at.len() ==> #[trigger] at[j] < #[trigger] at[k],
        forall|i: int|
            0 <= i < entries.len() && (#[trigger] entries[i]).bounds == bounds ==> at.contains(i),
{
    lemma_filter_positions(entries, |e: Entry| e.bounds == bounds)
}

/// The items outside a rectangle are all those with an edge outside it, in
/// their order.
pub proof fn law_items_outside(entries: Seq<Entry>, rect: Box2d) -> (at: Seq<int>)
    ensures
        at.len() == outside(entries, rect).len(),
        forall|k: int|
            0 <= k < at.len() ==> 0 <= #[trigger] at[k] < entries.len() && outside(
                entries,
                rect,
            )[k] == entries[at[k]] && !entries[at[k]].bounds.within(rect),
        forall|j: int, k: int| 0 <= j < k < at.len() ==> #[trigger] at[j] < #[trigger] at[k],
        forall|i: int|
            0 <= i < entries.len() && !(#[trigger] entries[i]).bounds.within(rect) ==> at.contains(
                i,
            ),
{
    lemma_filter_positions(entries, |e: Entry| !e.bounds.within(rect))
}

/// Finds the first item with these bounds.
pub fn find_with_bounds(entries: &Vec<Entry>, bounds: &Box2d) -> (at: usize)
    ensures
        at == first_with_bounds(entries@, *bounds),
        at <= entries@.len(),
        at < entries@.len() ==> entries@[at as int].bounds == *bounds,
        forall|i: int| 0 <= i < at ==> (#[trigger] entries@[i]).bounds != *bounds,
{
    let mut at: usize = 0;
    while at < entries.len()
        invariant
            at <= entries@.len(),
            forall|i: int| 0 <= i < at ==> (#[trigger] entries@[i]).bounds != *bounds,
        decreases entries@.len() - at,
    {
        if entries[at].bounds == *bounds {
            proof {
                lemma_is_first_with_bounds(entries@, *bounds, at as int);
            }
            return at;
        }
        at += 1;
    }
    proof {
        lemma_is_first_with_bounds(entries@, *bounds, at as int);
    }
    at
}

/// Reads the items of a blob on request, by their bounds. Items that are read
/// past are kept, in order, unless they lie within a given rectangle. Several
/// items may have the same bounds.
pub struct CachedReader<'a> {
    pub reader: BlobReader<'a>,
    pub cache: Vec<Entry>,
}

impl<'a> CachedReader<'a> {
    /// The items outside `rect` that were not handed out, in the order of the
    /// blob.
    pub open spec fn pending(&self, rect: Box2d) -> Seq<Entry> {
        self.cache@ + outside(self.reader.entries(), rect)
    }

    /// What handing out `entry` for `bounds` makes of `before`: a kept item
    /// leaves the cache; for an item of the index, the reader moves past it,
    /// and the items before it that do not lie within `ignore_rect` are kept.
    pub open spec fn hands_out(
        &self,
        before: &CachedReader<'a>,
        entry: Entry,
        bounds: Box2d,
        ignore_rect: Box2d,
    ) -> bool {
        let cached = first_with_bounds(before.cache@, bounds);
        let at = first_with_bounds(before.reader.entries(), bounds);
        if cached < before.cache@.len() {
            &&& entry == before.cache@[cached]
            &&& self.cache@ == before.cache@.remove(cached)
            &&& self.reader == before.reader
        } else {
            &&& at < before.reader.entries().len()
            &&& entry == before.reader.entries()[at]
            &&& self.cache@ == before.cache@ + outside(
                before.reader.entries().take(at),
                ignore_rect,
            )
            &&& self.reader.entries() == before.reader.entries().skip(at + 1)
            &&& self.reader.begin == entry.extra_end
            &&& self.reader.reader.advanced(
                &before.reader.reader,
                ((at + 1) * entry_size()) as nat,
            )
        }
    }

    /// Starts at the first item of `buf`.
    pub fn new(buf: &'a [u8], order: ByteOrder) -> (reader: CachedReader<'a>)
        requires
            has_index(order, buf@),
        ensures
            reader.reader.wf(),
            reader.reader.reader.order == order,
            reader.reader.reader.pos == 0,
            reader.reader.reader.remaining() == index_bytes(order, buf@),
            reader.reader.begin == 0,
            reader.reader.entries() == blob_entries(order, buf@),
            reader.reader.whole() == is_blob(order, buf@),
            reader.cache@ == Seq::<Entry>::empty(),
    {
        CachedReader { reader: BlobReader::new(buf, order), cache: Vec::new() }
    }

    /// Takes the first kept item with these bounds.
    pub fn take_entry_with_bounds_from_cache(&mut self, bounds: &Box2d) -> (entry: Option<Entry>)
        ensures
            final(self).reader == old(self).reader,
            first_with_bounds(old(self).cache@, *bounds) == old(self).cache@.len() ==> entry is None
                && final(self).cache@ == old(self).cache@,
            first_with_bounds(old(self).cache@, *bounds) < old(self).cache@.len() ==> entry == Some(
                old(self).cache@[first_with_bounds(old(self).cache@, *bounds)],
            ) && final(self).cache@ == old(self).cache@.remove(
                first_with_bounds(old(self).cache@, *bounds),
            ),
    {
        let at: usize = find_with_bounds(&self.cache, bounds);
        if at == self.cache.len() {
            return None;
        }
        proof {
            lemma_first_with_bounds(self.cache@, *bounds);
        }
        Some(self.cache.remove(at))
    }

    /// Hands out the first item with these bounds: a kept one if there is one,
    /// else the next one in the index. Items before that which lie within
    /// `ignore_rect` are dropped, the others are kept.
    pub fn next_entry_with_bounds(&mut self, bounds: &Box2d, ignore_rect: &Box2d) -> (entry: Entry)
        requires
            old(self).reader.wf(),
            first_with_bounds(old(self).cache@, *bounds) < old(self).cache@.len()
                || first_with_bounds(old(self).reader.entries(), *bounds) < old(
                self,
            ).reader.entries().len(),
        ensures
            final(self).reader.wf(),
            old(self).reader.whole() ==> final(self).reader.whole(),
            final(self).hands_out(old(self), entry, *bounds, *ignore_rect),
            final(self).reader.reader.buf@ == old(self).reader.reader.buf@,
            final(self).reader.reader.order == old(self).reader.reader.order,
    {
        if let Some(entry) = self.take_entry_with_bounds_from_cache(bounds) {
            proof {
                lemma_first_with_bounds(old(self).cache@, *bounds);
            }
            return entry;
        }
        let ghost all = self.reader.entries();
        let ghost at = first_with_bounds(all, *bounds);
        let ghost kept = |e: Entry| !e.bounds.within(*ignore_rect);
        let ghost mut done: int = 0;
        proof {
            lemma_first_with_bounds(old(self).cache@, *bounds);
            lemma_first_with_bounds(all, *bounds);
            lemma_word_size();
            assert(all.skip(0) =~= all);
            assert(all.take(0) =~= Seq::empty());
            lemma_filter_none(all.take(0), kept);
            assert(self.cache@ =~= old(self).cache@ + outside(all.take(0), *ignore_rect));
            assert(0 * entry_size() == 0);
            assert(self.reader.reader.remaining() =~= self.reader.reader.remaining().skip(0));
        }
        loop
            invariant
                all == old(self).reader.entries(),
                at == first_with_bounds(all, *bounds),
                0 <= done <= at < all.len(),
                all[at].bounds == *bounds,
                forall|i: int| 0 <= i < at ==> (#[trigger] all[i]).bounds != *bounds,
                kept == (|e: Entry| !e.bounds.within(*ignore_rect)),
                first_with_bounds(old(self).cache@, *bounds) == old(self).cache@.len(),
                entry_size() > 0,
                self.reader.wf(),
                old(self).reader.whole() ==> self.reader.whole(),
                self.reader.entries() == all.skip(done),
                self.cache@ == old(self).cache@ + outside(all.take(done), *ignore_rect),
                self.reader.reader.advanced(&old(self).reader.reader, (done * entry_size()) as nat),
            decreases at - done,
        {
            let ghost before = self.reader;
            let ghost cache = self.cache@;
            let entry = self.reader.read_entry();
            proof {
                assert(all.skip(done)[0] == all[done]);
                assert(entry == all[done]);
                assert(self.reader.entries() =~= before.entries().skip(1));
                assert(all.skip(done).skip(1) =~= all.skip(done + 1));
                assert((done + 1) * entry_size() == done * entry_size() + entry_size())
                    by (nonlinear_arith);
                assert(done * entry_size() >= 0) by (nonlinear_arith)
                    requires
                        done >= 0,
                        entry_size() > 0,
                ;
                assert(self.reader.reader.remaining() =~= old(self).reader.reader.remaining().skip(
                    (done + 1) * entry_size(),
                ));
                lemma_filter_push(all.take(done), entry, kept);
                assert(all.take(done).push(entry) =~= all.take(done + 1));
            }
            if entry.bounds == *bounds {
                assert(done == at);
                return entry;
            } else if !entry.bounds.contained_by(ignore_rect) {
                self.cache.push(entry);
                assert(self.cache@ =~= old(self).cache@ + outside(
                    all.take(done + 1),
                    *ignore_rect,
                ));
            }
            proof {
                done = done + 1;
            }
        }
    }

    /// An item that is pending is in the cache or still in the index.
    pub proof fn lemma_pending_can_be_handed_out(&self, bounds: Box2d, rect: Box2d)
        requires
            with_bounds(self.pending(rect), bounds).len() > 0,
        ensures
            first_with_bounds(self.cache@, bounds) < self.cache@.len() || first_with_bounds(
                self.reader.entries(),
                bounds,
            ) < self.reader.entries().len(),
    {
        let pending = self.pending(rect);
        let at = first_with_bounds(pending, bounds);
        lemma_none_with_bounds(pending, bounds);
        lemma_first_with_bounds(pending, bounds);
        lemma_first_with_bounds(self.cache@, bounds);
        lemma_first_with_bounds(self.reader.entries(), bounds);
        if at < self.cache@.len() {
            assert(self.cache@[at].bounds == bounds);
        } else {
            lemma_filter_members(
                self.reader.entries(),
                |e: Entry| !e.bounds.within(rect),
                at - self.cache@.len(),
            );
        }
    }

    /// An item that is handed out has the bounds that were asked for. It is the
    /// first one in the cache that has them, and leaves the cache, or, where the
    /// cache has none, the first one in the index that has them, up to which the
    /// index is then read, with those read past kept at the end of the cache
    /// unless they lie within `rect`.
    pub proof fn law_hands_out_first_match(
        &self,
        before: &CachedReader<'a>,
        entry: Entry,
        bounds: Box2d,
        rect: Box2d,
    ) -> (k: int)
        requires
            self.hands_out(before, entry, bounds, rect),
        ensures
            entry.bounds == bounds,
            ({
                let cache = before.cache@;
                let cached = exists|j: int|
                    0 <= j < cache.len() && (#[trigger] cache[j]).bounds == bounds;
                let list = before.reader.entries();
                &&& cached ==> {
                    &&& 0 <= k < cache.len()
                    &&& entry == cache[k]
                    &&& forall|j: int| 0 <= j < k ==> (#[trigger] cache[j]).bounds != bounds
                    &&& self.cache@ == cache.remove(k)
                    &&& self.reader == before.reader
                }
                &&& !cached ==> {
                    &&& 0 <= k < list.len()
                    &&& entry == list[k]
                    &&& forall|j: int| 0 <= j < k ==> (#[trigger] list[j]).bounds != bounds
                    &&& self.cache@ == cache + outside(list.take(k), rect)
                    &&& self.reader.entries() == list.skip(k + 1)
                    &&& self.reader.begin == entry.extra_end
                    &&& self.reader.reader.buf@ == before.reader.reader.buf@
                    &&& self.reader.reader.order == before.reader.reader.order
                    &&& self.reader.reader.pos == before.reader.reader.pos + (k + 1) * (2
                        * word_size() + 16)
                }
            }),
    {
        let cached = first_with_bounds(before.cache@, bounds);
        let at = first_with_bounds(before.reader.entries(), bounds);
        lemma_first_with_bounds(before.cache@, bounds);
        lemma_first_with_bounds(before.reader.entries(), bounds);
        if cached < before.cache@.len() {
            assert(before.cache@[cached].bounds == bounds);
            cached
        } else {
            lemma_word_size();
            assert((at + 1) * entry_size() >= 0) by (nonlinear_arith)
                requires
                    at >= 0,
                    entry_size() >= 0,
            ;
            at
        }
    }

    /// For bounds outside `rect`, `next_entry_with_bounds` hands out the first
    /// pending item with the bounds and leaves the others pending, in order.
    pub proof fn law_hands_out_in_order(
        &self,
        before: &CachedReader<'a>,
        entry: Entry,
        bounds: Box2d,
        rect: Box2d,
    )
        requires
            !bounds.within(rect),
            self.hands_out(before, entry, bounds, rect),
        ensures
            ({
                let first = first_with_bounds(before.pending(rect), bounds);
                &&& first < before.pending(rect).len()
                &&& entry == before.pending(rect)[first]
                &&& self.pending(rect) == before.pending(rect).remove(first)
            }),
    {
        let cached = first_with_bounds(before.cache@, bounds);
        let entries = before.reader.entries();
        let at = first_with_bounds(entries, bounds);
        let pending = before.pending(rect);
        lemma_first_with_bounds(before.cache@, bounds);
        lemma_first_with_bounds(entries, bounds);
        if cached < before.cache@.len() {
            assert forall|i: int| 0 <= i < cached implies (#[trigger] pending[i]).bounds
                != bounds by {
                assert(pending[i] == before.cache@[i]);
            }
            lemma_is_first_with_bounds(pending, bounds, cached);
            assert(self.pending(rect) =~= pending.remove(cached));
        } else {
            let kept = |e: Entry| !e.bounds.within(rect);
            let skipped = outside(entries.take(at), rect);
            let first = before.cache@.len() + skipped.len();
            lemma_filter_around(entries, at, kept);
            lemma_filter_one(entry, kept);
            assert(pending =~= before.cache@ + (skipped + seq![entry] + outside(
                entries.skip(at + 1),
                rect,
            )));
            assert forall|i: int| 0 <= i < first implies (#[trigger] pending[i]).bounds
                != bounds by {
                if i < before.cache@.len() {
                    assert(pending[i] == before.cache@[i]);
                } else {
                    let j = i - before.cache@.len();
                    assert(pending[i] == skipped[j]);
                    lemma_filter_members(entries.take(at), kept, j);
                }
            }
            lemma_is_first_with_bounds(pending, bounds, first as int);
            assert(self.pending(rect) =~= pending.remove(first as int));
        }
    }
}

/// What a filter keeps was there before.
proof fn lemma_filter_members(entries: Seq<Entry>, pred: spec_fn(Entry) -> bool, i: int)
    requires
        0 <= i < entries.filter(pred).len(),
    ensures
        exists|j: int| 0 <= j < entries.len() && #[trigger] entries[j] == entries.filter(pred)[i],
    decreases entries.len(),
{
    reveal(Seq::filter);
    if entries.len() > 0 {
        if pred(entries.last()) && i == entries.filter(pred).len() - 1 {
            assert(entries[entries.len() - 1] == entries.filter(pred)[i]);
        } else {
            lemma_filter_members(entries.drop_last(), pred, i);
            let j = choose|j: int|
                0 <= j < entries.drop_last().len() && #[trigger] entries.drop_last()[j]
                    == entries.drop_last().filter(pred)[i];
            assert(entries[j] == entries.filter(pred)[i]);
        }
    }
}

} // verus!
