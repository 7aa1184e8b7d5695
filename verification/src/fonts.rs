//! The fonts that a blob uses.
//!
//! The extra data of an item is a word, the number of fonts, and then so many
//! font records.

use vstd::layout::layout_of_primitives;
use vstd::prelude::*;

use crate::bytes::{
    law_value_of_bytes, lemma_uint_bytes_len, lemma_uint_value_bound, lemma_word_size, u32_value,
    uint_bytes, uint_value, word_size, ByteOrder,
};
use crate::index::{blob_entries, check_result, entry_size, is_blob, read_index, BlobReader, Entry};
use crate::keys::{FontInstanceKey, FontKey, IdNamespace};
use crate::reader::BufReader;

verus! {

/// A font record.
#[derive(Clone, Copy, Debug, PartialEq, Eq, Structural)]
pub struct BlobFont {
    pub font_instance_key: FontInstanceKey,
    pub scaled_font_ptr: u64,
}

/// The number of bytes of a font record.
pub open spec fn font_size() -> nat {
    16
}

/// The font that a record describes.
pub open spec fn decode_font(order: ByteOrder, record: Seq<u8>) -> BlobFont {
    BlobFont {
        font_instance_key: FontInstanceKey(
            IdNamespace(u32_value(order, record.subrange(0, 4))),
            u32_value(order, record.subrange(4, 8)),
        ),
        scaled_font_ptr: uint_value(order, record.subrange(8, 16)) as u64,
    }
}

/// The number of fonts that some extra data announces.
pub open spec fn font_count(order: ByteOrder, extra: Seq<u8>) -> nat {
    uint_value(order, extra.take(word_size() as int))
}

/// The extra data holds the fonts that it announces.
pub open spec fn holds_fonts(order: ByteOrder, extra: Seq<u8>) -> bool {
    &&& word_size() <= extra.len()
    &&& word_size() + font_count(order, extra) * font_size() <= extra.len()
}

/// The font record at `i` of some extra data.
pub open spec fn font_record(extra: Seq<u8>, i: int) -> Seq<u8> {
    extra.subrange(word_size() + i * font_size(), word_size() + (i + 1) * font_size())
}

/// The fonts that some extra data lists.
pub open spec fn font_keys(order: ByteOrder, extra: Seq<u8>) -> Seq<FontInstanceKey> {
    Seq::new(
        font_count(order, extra),
        |i: int| decode_font(order, font_record(extra, i)).font_instance_key,
    )
}

/// The extra data of an item.
pub open spec fn extra_of(blob: Seq<u8>, entry: Entry) -> Seq<u8> {
    blob.subrange(entry.end as int, entry.extra_end as int)
}

/// The extra data of an item lies in the blob and holds its fonts.
pub open spec fn entry_holds_fonts(order: ByteOrder, blob: Seq<u8>, entry: Entry) -> bool {
    &&& entry.end <= entry.extra_end <= blob.len()
    &&& holds_fonts(order, extra_of(blob, entry))
}

/// The fonts of all items can be read.
pub open spec fn fonts_readable(order: ByteOrder, blob: Seq<u8>) -> bool {
    &&& is_blob(order, blob)
    &&& forall|i: int|
        0 <= i < blob_entries(order, blob).len() ==> #[trigger] entry_holds_fonts(
            order,
            blob,
            blob_entries(order, blob)[i],
        )
}

/// The fonts that the items list, one item after the other.
pub open spec fn listed_fonts(
    order: ByteOrder,
    blob: Seq<u8>,
    entries: Seq<Entry>,
) -> Seq<FontInstanceKey>
    decreases entries.len(),
{
    if entries.len() == 0 {
        Seq::empty()
    } else {
        listed_fonts(order, blob, entries.drop_last()) + font_keys(
            order,
            extra_of(blob, entries.last()),
        )
    }
}

/// The fonts that a blob uses, each where it is listed first.
pub open spec fn requested_fonts(order: ByteOrder, blob: Seq<u8>) -> Seq<FontInstanceKey> {
    listed_fonts(order, blob, blob_entries(order, blob)).remove_duplicates(Seq::empty())
}

impl<'a> BufReader<'a> {
    /// Reads a font record.
    pub fn read_blob_font(&mut self) -> (font: BlobFont)
        requires
            old(self).wf(),
            font_size() <= old(self).remaining().len(),
        ensures
            font == decode_font(
                old(self).order,
                old(self).remaining().take(font_size() as int),
            ),
            ({
                let order = old(self).order;
                let buf = old(self).buf@;
                let at = old(self).pos as int;
                &&& font.font_instance_key.0.0 == uint_value(order, buf.subrange(at, at + 4))
                &&& font.font_instance_key.1 == uint_value(order, buf.subrange(at + 4, at + 8))
                &&& font.scaled_font_ptr == uint_value(order, buf.subrange(at + 8, at + 16))
            }),
            final(self).buf@ == old(self).buf@,
            final(self).order == old(self).order,
            final(self).pos == old(self).pos + 16,
            final(self).advanced(old(self), font_size()),
    {
        let ghost bytes = self.remaining();
        let ghost record = bytes.take(16);
        proof {
            lemma_word_size();
            lemma_uint_value_bound(self.order, record.subrange(8, 16));
            assert(bytes.take(4) =~= record.subrange(0, 4));
            assert(bytes.skip(4).take(4) =~= record.subrange(4, 8));
            assert(bytes.skip(4).skip(4) =~= bytes.skip(8));
            assert(bytes.skip(8).take(8) =~= record.subrange(8, 16));
            assert(bytes.skip(8).skip(8) =~= bytes.skip(16));
        }
        let namespace: u32 = self.read_u32();
        let key: u32 = self.read_u32();
        let scaled_font_ptr: u64 = self.read(8);
        BlobFont {
            font_instance_key: FontInstanceKey(IdNamespace(namespace), key),
            scaled_font_ptr,
        }
    }
}

/// The layout of a font record: the namespace and the key of the font instance,
/// four bytes each, and then a pointer of eight bytes.
pub proof fn law_layout_of_a_font(order: ByteOrder, namespace: u32, key: u32, pointer: u64)
    ensures
        decode_font(
            order,
            uint_bytes(order, namespace as nat, 4) + uint_bytes(order, key as nat, 4) + uint_bytes(
                order,
                pointer as nat,
                8,
            ),
        ) == (BlobFont {
            font_instance_key: FontInstanceKey(IdNamespace(namespace), key),
            scaled_font_ptr: pointer,
        }),
{
    let n = uint_bytes(order, namespace as nat, 4);
    let k = uint_bytes(order, key as nat, 4);
    let p = uint_bytes(order, pointer as nat, 8);
    lemma_word_size();
    lemma_uint_bytes_len(order, namespace as nat, 4);
    lemma_uint_bytes_len(order, key as nat, 4);
    lemma_uint_bytes_len(order, pointer as nat, 8);
    law_value_of_bytes(order, namespace as nat, 4);
    law_value_of_bytes(order, key as nat, 4);
    law_value_of_bytes(order, pointer as nat, 8);
    assert((n + k + p).subrange(0, 4) =~= n);
    assert((n + k + p).subrange(4, 8) =~= k);
    assert((n + k + p).subrange(8, 16) =~= p);
}

/// The layout of extra data: a word that holds the number of fonts, and then
/// one record of sixteen bytes for each font, which starts with the namespace
/// and the key, four bytes each.
pub proof fn law_layout_of_extra_data(order: ByteOrder, extra: Seq<u8>, i: int)
    requires
        holds_fonts(order, extra),
    ensures
        font_keys(order, extra).len() == uint_value(order, extra.take(word_size() as int)),
        0 <= i < font_keys(order, extra).len() ==> {
            let at = word_size() + 16 * i;
            let key = font_keys(order, extra)[i];
            &&& at + 16 <= extra.len()
            &&& key.0.0 == uint_value(order, extra.subrange(at, at + 4))
            &&& key.1 == uint_value(order, extra.subrange(at + 4, at + 8))
        },
{
    if 0 <= i < font_keys(order, extra).len() {
        let at = word_size() + 16 * i;
        let record = font_record(extra, i);
        lemma_word_size();
        assert(record.subrange(0, 4) =~= extra.subrange(at, at + 4));
        assert(record.subrange(4, 8) =~= extra.subrange(at + 4, at + 8));
        lemma_uint_value_bound(order, extra.subrange(at, at + 4));
        lemma_uint_value_bound(order, extra.subrange(at + 4, at + 8));
    }
}

/// When the fonts of a blob can be read: the index can be, and the extra data
/// of each item lies in the blob and has room for the number of fonts and for
/// so many records of sixteen bytes.
pub proof fn law_when_fonts_are_readable(order: ByteOrder, blob: Seq<u8>)
    ensures
        fonts_readable(order, blob) <==> {
            let entries = blob_entries(order, blob);
            let w = word_size() as int;
            &&& is_blob(order, blob)
            &&& forall|i: int|
                #![trigger entries[i]]
                0 <= i < entries.len() ==> {
                    &&& entries[i].end + w <= entries[i].extra_end <= blob.len()
                    &&& entries[i].end + w + 16 * uint_value(
                        order,
                        blob.subrange(entries[i].end as int, entries[i].end + w),
                    ) <= entries[i].extra_end
                }
        },
{
    let entries = blob_entries(order, blob);
    let w = word_size() as int;
    assert forall|i: int| 0 <= i < entries.len() implies (#[trigger] entry_holds_fonts(
        order,
        blob,
        entries[i],
    ) <==> {
        &&& entries[i].end + w <= entries[i].extra_end <= blob.len()
        &&& entries[i].end + w + 16 * uint_value(
            order,
            blob.subrange(entries[i].end as int, entries[i].end + w),
        ) <= entries[i].extra_end
    }) by {
        let entry = entries[i];
        if entry.end + w <= entry.extra_end <= blob.len() {
            assert(extra_of(blob, entry).take(w) =~= blob.subrange(
                entry.end as int,
                entry.end + w,
            ));
        }
    }
    if fonts_readable(order, blob) {
        assert forall|i: int|
            #![trigger entries[i]]
            0 <= i < entries.len() implies entry_holds_fonts(order, blob, entries[i]) by {
        }
    }
}

/// Tells whether `key` is among `keys`.
fn contains_font(keys: &Vec<FontInstanceKey>, key: FontInstanceKey) -> (found: bool)
    ensures
        found == keys@.contains(key),
{
    let mut i: usize = 0;
    while i < keys.len()
        invariant
            i <= keys@.len(),
            forall|j: int| 0 <= j < i ==> #[trigger] keys@[j] != key,
        decreases keys@.len() - i,
    {
        if keys[i] == key {
            return true;
        }
        i += 1;
    }
    false
}

/// Adds the fonts that some extra data lists to `scaled_fonts`, each once.
pub fn process_fonts(extra_data: BufReader, scaled_fonts: &mut Vec<FontInstanceKey>)
    requires
        extra_data.wf(),
        holds_fonts(extra_data.order, extra_data.remaining()),
    ensures
        final(scaled_fonts)@ == font_keys(
            extra_data.order,
            extra_data.remaining(),
        ).remove_duplicates(old(scaled_fonts)@),
{
    let mut reader = extra_data;
    let ghost extra = extra_data.remaining();
    let ghost order = extra_data.order;
    let ghost keys = font_keys(order, extra);
    let count: usize = reader.read_usize();
    let mut i: usize = 0;
    assert(keys.skip(0) =~= keys);
    while i < count
        invariant
            i <= count == keys.len(),
            holds_fonts(order, extra),
            keys == font_keys(order, extra),
            count == font_count(order, extra),
            reader.wf(),
            reader.order == order,
            reader.remaining() == extra.skip((word_size() + i * font_size()) as int),
            keys.skip(i as int).remove_duplicates(scaled_fonts@) == keys.remove_duplicates(
                old(scaled_fonts)@,
            ),
        decreases count - i,
    {
        let ghost at = word_size() + i * font_size();
        proof {
            assert(reader.remaining().take(16) =~= font_record(extra, i as int));
            assert(reader.remaining().skip(16) =~= extra.skip(at + 16));
            assert(keys.skip(i as int)[0] == keys[i as int]);
            assert(keys.skip(i as int).skip(1) =~= keys.skip(i + 1));
        }
        let font = reader.read_blob_font();
        if !contains_font(scaled_fonts, font.font_instance_key) {
            assert(scaled_fonts@.push(keys[i as int]) =~= scaled_fonts@ + seq![keys[i as int]]);
            scaled_fonts.push(font.font_instance_key);
        }
        i += 1;
    }
}

/// First the duplicates of one list are removed, then those of the next.
proof fn lemma_remove_duplicates_twice(
    a: Seq<FontInstanceKey>,
    b: Seq<FontInstanceKey>,
    seen: Seq<FontInstanceKey>,
)
    ensures
        (a + b).remove_duplicates(seen) == b.remove_duplicates(a.remove_duplicates(seen)),
    decreases a.len(),
{
    if a.len() == 0 {
        assert(a + b =~= b);
    } else {
        assert((a + b)[0] == a[0]);
        assert((a + b).skip(1) =~= a.skip(1) + b);
        if seen.contains(a[0]) {
            lemma_remove_duplicates_twice(a.skip(1), b, seen);
        } else {
            lemma_remove_duplicates_twice(a.skip(1), b, seen + seq![a[0]]);
        }
    }
}

/// Finds the fonts that `blob` uses, each once, in the order in which they are
/// listed first.
pub fn prepare_request(blob: &[u8], order: ByteOrder) -> (scaled_fonts: Vec<FontInstanceKey>)
    requires
        fonts_readable(order, blob@),
    ensures
        scaled_fonts@ == requested_fonts(order, blob@),
{
    let ghost entries = blob_entries(order, blob@);
    let ghost mut i: int = 0;
    let mut index = BlobReader::new(blob, order);
    let mut scaled_fonts: Vec<FontInstanceKey> = Vec::new();
    proof {
        assert(entries.skip(0) =~= entries);
        assert(entries.take(0) =~= Seq::empty());
        index.lemma_next_record();
    }
    while index.reader.has_more()
        invariant
            fonts_readable(order, blob@),
            entries == blob_entries(order, blob@),
            0 <= i <= entries.len(),
            index.whole(),
            index.entries() == entries.skip(i),
            index.reader.remaining().len() > 0 ==> index.reader.remaining().len() >= entry_size(),
            index.reader.remaining().len() == 0 <==> entries.skip(i).len() == 0,
            scaled_fonts@ == listed_fonts(order, blob@, entries.take(i)).remove_duplicates(
                Seq::empty(),
            ),
        decreases index.reader.remaining().len(),
    {
        let ghost before = index.entries();
        let entry = index.read_entry();
        proof {
            lemma_word_size();
            assert(before[0] == entries[i]);
            assert(index.entries() =~= before.skip(1));
            assert(before.skip(1) =~= entries.skip(i + 1));
            assert(entry_holds_fonts(order, blob@, entries[i]));
            assert(entries.take(i + 1).drop_last() =~= entries.take(i));
            lemma_remove_duplicates_twice(
                listed_fonts(order, blob@, entries.take(i)),
                font_keys(order, extra_of(blob@, entry)),
                Seq::empty(),
            );
            index.lemma_next_record();
        }
        process_fonts(
            BufReader::new(&blob[entry.end..entry.extra_end], order),
            &mut scaled_fonts,
        );
        proof {
            i = i + 1;
        }
    }
    assert(entries.take(i) =~= entries);
    scaled_fonts
}

/// Tells whether the fonts of all items of `blob` can be read.
pub fn can_prepare_request(blob: &[u8], order: ByteOrder) -> (possible: bool)
    ensures
        possible == fonts_readable(order, blob@),
{
    broadcast use layout_of_primitives;

    if !check_result(blob, order) {
        return false;
    }
    let word: usize = std::mem::size_of::<usize>();
    let entries = read_index(blob, order);
    let mut i: usize = 0;
    while i < entries.len()
        invariant
            is_blob(order, blob@),
            entries@ == blob_entries(order, blob@),
            word == word_size(),
            i <= entries@.len(),
            forall|j: int|
                0 <= j < i ==> #[trigger] entry_holds_fonts(
                    order,
                    blob@,
                    blob_entries(order, blob@)[j],
                ),
        decreases entries@.len() - i,
    {
        let entry = entries[i];
        let ghost holds = entry_holds_fonts(order, blob@, blob_entries(order, blob@)[i as int]);
        if entry.end > entry.extra_end || entry.extra_end > blob.len() {
            assert(!holds);
            return false;
        }
        let extra: &[u8] = &blob[entry.end..entry.extra_end];
        if extra.len() < word {
            assert(!holds);
            return false;
        }
        let mut reader = BufReader::new(extra, order);
        let count: usize = reader.read_usize();
        if count > (extra.len() - word) / 16 {
            assert(!holds);
            return false;
        }
        i += 1;
    }
    true
}

/// A step of making fonts known to the drawing backend.
#[derive(Clone, Copy, Debug, PartialEq, Eq, Structural)]
pub enum FontAction {
    /// Add the data or the native handle of a font.
    AddFont(FontKey),
    /// Add an instance of a font.
    AddBlobFont(FontInstanceKey, FontKey),
}

/// The steps that make font instances known, given for each instance the font
/// that it is of, if it has one: a font is added when its first instance comes
/// up, and then the instance.
pub open spec fn font_actions(instances: Seq<(FontInstanceKey, Option<FontKey>)>) -> Seq<FontAction>
    decreases instances.len(),
{
    if instances.len() == 0 {
        Seq::empty()
    } else {
        let before = font_actions(instances.drop_last());
        match instances.last().1 {
            None => before,
            Some(font) => if before.contains(FontAction::AddFont(font)) {
                before.push(FontAction::AddBlobFont(instances.last().0, font))
            } else {
                before.push(FontAction::AddFont(font)).push(
                    FontAction::AddBlobFont(instances.last().0, font),
                )
            },
        }
    }
}

/// Plans how to make font instances known, given the font that each is of.
pub fn load_fonts(instances: &Vec<(FontInstanceKey, Option<FontKey>)>) -> (actions: Vec<FontAction>)
    ensures
        actions@ == font_actions(instances@),
{
    let mut unscaled_fonts: Vec<FontKey> = Vec::new();
    let mut actions: Vec<FontAction> = Vec::new();
    let mut i: usize = 0;
    assert(instances@.take(0) =~= Seq::empty());
    while i < instances.len()
        invariant
            i <= instances@.len(),
            actions@ == font_actions(instances@.take(i as int)),
            forall|font: FontKey|
                unscaled_fonts@.contains(font) <==> #[trigger] actions@.contains(
                    FontAction::AddFont(font),
                ),
        decreases instances@.len() - i,
    {
        let (instance, found) = instances[i];
        assert(instances@.take(i + 1).drop_last() =~= instances@.take(i as int));
        if let Some(font) = found {
            let ghost fonts = unscaled_fonts@;
            let ghost before = actions@;
            if !contains_unscaled(&unscaled_fonts, font) {
                unscaled_fonts.push(font);
                actions.push(FontAction::AddFont(font));
                proof {
                    lemma_push_contains(fonts, font);
                    lemma_push_contains(before, FontAction::AddFont(font));
                }
            }
            let ghost added = actions@;
            actions.push(FontAction::AddBlobFont(instance, font));
            proof {
                lemma_push_contains(added, FontAction::AddBlobFont(instance, font));
            }
        }
        i += 1;
    }
    assert(instances@.take(i as int) =~= instances@);
    actions
}

proof fn lemma_push_contains<T>(s: Seq<T>, x: T)
    ensures
        forall|y: T| #[trigger] s.push(x).contains(y) <==> y == x || s.contains(y),
{
    assert forall|y: T| y == x || s.contains(y) implies #[trigger] s.push(x).contains(y) by {
        if s.contains(y) {
            let k = choose|k: int| 0 <= k < s.len() && s[k] == y;
            assert(s.push(x)[k] == y);
        } else {
            assert(s.push(x)[s.len() as int] == y);
        }
    }
    assert forall|y: T| #[trigger] s.push(x).contains(y) implies y == x || s.contains(y) by {
        let k = choose|k: int| 0 <= k < s.push(x).len() && s.push(x)[k] == y;
        if k < s.len() {
            assert(s[k] == y);
        }
    }
}

/// Tells whether `key` is among `keys`.
fn contains_unscaled(keys: &Vec<FontKey>, key: FontKey) -> (found: bool)
    ensures
        found == keys@.contains(key),
{
    let mut i: usize = 0;
    while i < keys.len()
        invariant
            i <= keys@.len(),
            forall|j: int| 0 <= j < i ==> #[trigger] keys@[j] != key,
        decreases keys@.len() - i,
    {
        if keys[i] == key {
            return true;
        }
        i += 1;
    }
    false
}

proof fn lemma_unique_after_removal(keys: Seq<FontInstanceKey>, seen: Seq<FontInstanceKey>)
    requires
        seen.no_duplicates(),
    ensures
        keys.remove_duplicates(seen).no_duplicates(),
        forall|key: FontInstanceKey|
            #[trigger] keys.remove_duplicates(seen).contains(key) <==> keys.contains(key)
                || seen.contains(key),
    decreases keys.len(),
{
    if keys.len() > 0 {
        assert(keys =~= seq![keys[0]] + keys.skip(1));
        assert forall|key: FontInstanceKey| #[trigger] keys.contains(key) <==> key == keys[0]
            || keys.skip(1).contains(key) by {
            if keys.contains(key) && key != keys[0] {
                let k = choose|k: int| 0 <= k < keys.len() && keys[k] == key;
                assert(keys.skip(1)[k - 1] == key);
            }
            if keys.skip(1).contains(key) {
                let k = choose|k: int| 0 <= k < keys.skip(1).len() && keys.skip(1)[k] == key;
                assert(keys[k + 1] == key);
            }
        }
        if seen.contains(keys[0]) {
            lemma_unique_after_removal(keys.skip(1), seen);
        } else {
            let next = seen + seq![keys[0]];
            assert(next =~= seen.push(keys[0]));
            lemma_push_contains(seen, keys[0]);
            assert(next.no_duplicates());
            lemma_unique_after_removal(keys.skip(1), next);
        }
    }
}

/// Each font that an item of the blob lists is requested, no other one is, and
/// none is requested twice.
pub proof fn law_each_font_is_requested_once(order: ByteOrder, blob: Seq<u8>)
    ensures
        requested_fonts(order, blob).no_duplicates(),
        forall|key: FontInstanceKey|
            #[trigger] requested_fonts(order, blob).contains(key) <==> listed_fonts(
                order,
                blob,
                blob_entries(order, blob),
            ).contains(key),
{
    lemma_unique_after_removal(
        listed_fonts(order, blob, blob_entries(order, blob)),
        Seq::empty(),
    );
}

/// Where the keys that are left stood first.
proof fn lemma_first_places(keys: Seq<FontInstanceKey>, seen: Seq<FontInstanceKey>) -> (at: Seq<int>)
    ensures
        keys.remove_duplicates(seen).len() == seen.len() + at.len(),
        keys.remove_duplicates(seen).take(seen.len() as int) == seen,
        forall|q: int|
            0 <= q < at.len() ==> 0 <= #[trigger] at[q] < keys.len() && keys.remove_duplicates(
                seen,
            )[seen.len() + q] == keys[at[q]] && !seen.contains(keys[at[q]]),
        forall|q: int, r: int| 0 <= q < r < at.len() ==> #[trigger] at[q] < #[trigger] at[r],
        forall|q: int, p: int|
            0 <= q < at.len() && 0 <= p < at[q] ==> #[trigger] keys[p] != keys[#[trigger] at[q]],
    decreases keys.len(),
{
    if keys.len() == 0 {
        assert(seen.take(seen.len() as int) =~= seen);
        Seq::empty()
    } else if seen.contains(keys[0]) {
        let rest = lemma_first_places(keys.skip(1), seen);
        let at = Seq::new(rest.len(), |q: int| rest[q] + 1);
        assert forall|q: int, p: int| 0 <= q < at.len() && 0 <= p < at[q] implies #[trigger] keys[p]
            != keys[#[trigger] at[q]] by {
            assert(!seen.contains(keys.skip(1)[rest[q]]));
            if p > 0 {
                assert(keys.skip(1)[p - 1] != keys.skip(1)[rest[q]]);
            }
        }
        at
    } else {
        let more = seen + seq![keys[0]];
        let rest = lemma_first_places(keys.skip(1), more);
        let at = Seq::new(
            rest.len() + 1,
            |q: int|
                if q == 0 {
                    0
                } else {
                    rest[q - 1] + 1
                },
        );
        let left = keys.remove_duplicates(seen);
        assert(left.take(seen.len() as int) =~= seen) by {
            assert(left.take(seen.len() as int) =~= left.take(more.len() as int).take(
                seen.len() as int,
            ));
        }
        assert(left[seen.len() as int] == keys[0]) by {
            assert(left.take(more.len() as int)[seen.len() as int] == more[seen.len() as int]);
        }
        assert forall|q: int| 0 <= q < at.len() implies 0 <= #[trigger] at[q] < keys.len()
            && left[seen.len() + q] == keys[at[q]] && !seen.contains(keys[at[q]]) by {
            if q > 0 {
                let key = keys.skip(1)[rest[q - 1]];
                assert(left[more.len() + (q - 1)] == key);
                if seen.contains(key) {
                    let k = choose|k: int| 0 <= k < seen.len() && seen[k] == key;
                    assert(more[k] == key);
                    assert(more.contains(key));
                }
            }
        }
        assert forall|q: int, p: int| 0 <= q < at.len() && 0 <= p < at[q] implies #[trigger] keys[p]
            != keys[#[trigger] at[q]] by {
            if q > 0 {
                assert(more[seen.len() as int] == keys[0]);
                assert(more.contains(keys[0]));
                assert(!more.contains(keys.skip(1)[rest[q - 1]]));
                if p > 0 {
                    assert(keys.skip(1)[p - 1] != keys.skip(1)[rest[q - 1]]);
                }
            }
        }
        at
    }
}

/// The fonts of an item stand together in the list of all, after those of the
/// items before it.
proof fn lemma_listed_fonts_at(order: ByteOrder, blob: Seq<u8>, entries: Seq<Entry>, i: int)
    requires
        0 <= i < entries.len(),
    ensures
        ({
            let all = listed_fonts(order, blob, entries);
            let keys = font_keys(order, extra_of(blob, entries[i]));
            let before = listed_fonts(order, blob, entries.take(i)).len();
            &&& before + keys.len() == listed_fonts(order, blob, entries.take(i + 1)).len()
            &&& before + keys.len() <= all.len()
            &&& forall|j: int| 0 <= j < keys.len() ==> all[before + j] == #[trigger] keys[j]
        }),
    decreases entries.len(),
{
    let last = entries.len() - 1;
    assert(entries.take(i + 1).drop_last() =~= entries.take(i));
    if i < last {
        lemma_listed_fonts_at(order, blob, entries.drop_last(), i);
        assert(entries.drop_last().take(i) =~= entries.take(i));
    } else {
        assert(entries.take(i + 1) =~= entries);
    }
}

/// The fonts of fewer items are no more.
proof fn lemma_listed_fonts_grow(
    order: ByteOrder,
    blob: Seq<u8>,
    entries: Seq<Entry>,
    i: int,
    j: int,
)
    requires
        0 <= i <= j <= entries.len(),
    ensures
        listed_fonts(order, blob, entries.take(i)).len() <= listed_fonts(
            order,
            blob,
            entries.take(j),
        ).len(),
    decreases j,
{
    if i < j {
        lemma_listed_fonts_grow(order, blob, entries, i, j - 1);
        lemma_listed_fonts_at(order, blob, entries, j - 1);
    }
}

/// A listed font belongs to an item.
proof fn lemma_listed_font_of_item(
    order: ByteOrder,
    blob: Seq<u8>,
    entries: Seq<Entry>,
    p: int,
) -> (at: (int, int))
    requires
        0 <= p < listed_fonts(order, blob, entries).len(),
    ensures
        0 <= at.0 < entries.len(),
        0 <= at.1 < font_keys(order, extra_of(blob, entries[at.0])).len(),
        p == listed_fonts(order, blob, entries.take(at.0)).len() + at.1,
    decreases entries.len(),
{
    let last = entries.len() - 1;
    let before = listed_fonts(order, blob, entries.drop_last()).len();
    if p < before {
        let at = lemma_listed_font_of_item(order, blob, entries.drop_last(), p);
        assert(entries.drop_last().take(at.0) =~= entries.take(at.0));
        at
    } else {
        assert(entries.take(last) =~= entries.drop_last());
        (last, p - before)
    }
}

/// The font at `at.1` of item `at.0` stands at `p` in the list of all.
spec fn listed_at(
    order: ByteOrder,
    blob: Seq<u8>,
    entries: Seq<Entry>,
    p: int,
    at: (int, int),
) -> bool {
    &&& 0 <= at.0 < entries.len()
    &&& 0 <= at.1 < font_keys(order, extra_of(blob, entries[at.0])).len()
    &&& p == listed_fonts(order, blob, entries.take(at.0)).len() + at.1
}

/// The extra data of an item goes from the end of its data to the end of its
/// extra data.
pub proof fn law_extra_data_of_an_item(blob: Seq<u8>, entry: Entry)
    ensures
        extra_of(blob, entry) == blob.subrange(entry.end as int, entry.extra_end as int),
{
}

/// Which fonts are requested, and in which order: `at` gives for each the item
/// and the place in its list of fonts where it is listed first. Fonts that are
/// listed first in an earlier item, or earlier in the same one, come earlier.
/// Every font of every item is requested.
pub proof fn law_fonts_come_where_first_listed(order: ByteOrder, blob: Seq<u8>) -> (at: Seq<
    (int, int),
>)
    ensures
        ({
            let entries = blob_entries(order, blob);
            let fonts = requested_fonts(order, blob);
            &&& at.len() == fonts.len()
            &&& forall|q: int|
                #![trigger at[q]]
                0 <= q < at.len() ==> {
                    let keys = font_keys(order, extra_of(blob, entries[at[q].0]));
                    &&& 0 <= at[q].0 < entries.len()
                    &&& 0 <= at[q].1 < keys.len()
                    &&& fonts[q] == keys[at[q].1]
                }
            &&& forall|q: int, r: int|
                #![trigger at[q], at[r]]
                0 <= q < r < at.len() ==> at[q].0 < at[r].0 || (at[q].0 == at[r].0 && at[q].1
                    < at[r].1)
            &&& forall|q: int, i: int, j: int|
                #![trigger at[q], font_keys(order, extra_of(blob, entries[i]))[j]]
                0 <= q < at.len() && 0 <= i < entries.len() && 0 <= j < font_keys(
                    order,
                    extra_of(blob, entries[i]),
                ).len() && (i < at[q].0 || (i == at[q].0 && j < at[q].1)) ==> font_keys(
                    order,
                    extra_of(blob, entries[i]),
                )[j] != fonts[q]
            &&& forall|i: int, j: int|
                #![trigger font_keys(order, extra_of(blob, entries[i]))[j]]
                0 <= i < entries.len() && 0 <= j < font_keys(
                    order,
                    extra_of(blob, entries[i]),
                ).len() ==> fonts.contains(font_keys(order, extra_of(blob, entries[i]))[j])
        }),
{
    let entries = blob_entries(order, blob);
    let all = listed_fonts(order, blob, entries);
    let fonts = requested_fonts(order, blob);
    let flat = lemma_first_places(all, Seq::empty());
    let at = Seq::new(
        flat.len(),
        |q: int| choose|a: (int, int)| listed_at(order, blob, entries, flat[q], a),
    );
    assert forall|q: int| #![trigger at[q]] 0 <= q < at.len() implies listed_at(
        order,
        blob,
        entries,
        flat[q],
        at[q],
    ) && fonts[q] == all[flat[q]] && fonts[q] == font_keys(
        order,
        extra_of(blob, entries[at[q].0]),
    )[at[q].1] by {
        let a = lemma_listed_font_of_item(order, blob, entries, flat[q]);
        assert(listed_at(order, blob, entries, flat[q], a));
        lemma_listed_fonts_at(order, blob, entries, at[q].0);
    }
    assert forall|q: int, r: int| #![trigger at[q], at[r]] 0 <= q < r < at.len() implies at[q].0
        < at[r].0 || (at[q].0 == at[r].0 && at[q].1 < at[r].1) by {
        assert(flat[q] < flat[r]);
        if at[r].0 < at[q].0 {
            lemma_listed_fonts_at(order, blob, entries, at[r].0);
            lemma_listed_fonts_grow(order, blob, entries, at[r].0 + 1, at[q].0);
        }
    }
    assert forall|q: int, i: int, j: int|
        #![trigger at[q], font_keys(order, extra_of(blob, entries[i]))[j]]
        0 <= q < at.len() && 0 <= i < entries.len() && 0 <= j < font_keys(
            order,
            extra_of(blob, entries[i]),
        ).len() && (i < at[q].0 || (i == at[q].0 && j < at[q].1)) implies font_keys(
        order,
        extra_of(blob, entries[i]),
    )[j] != fonts[q] by {
        let p = listed_fonts(order, blob, entries.take(i)).len() + j;
        lemma_listed_fonts_at(order, blob, entries, i);
        if i < at[q].0 {
            lemma_listed_fonts_grow(order, blob, entries, i + 1, at[q].0);
        }
        assert(p < flat[q]);
        assert(all[p] != all[flat[q]]);
    }
    assert forall|i: int, j: int|
        #![trigger font_keys(order, extra_of(blob, entries[i]))[j]]
        0 <= i < entries.len() && 0 <= j < font_keys(
            order,
            extra_of(blob, entries[i]),
        ).len() implies fonts.contains(font_keys(order, extra_of(blob, entries[i]))[j]) by {
        let p = listed_fonts(order, blob, entries.take(i)).len() + j;
        lemma_listed_fonts_at(order, blob, entries, i);
        law_each_font_is_requested_once(order, blob);
        assert(all.contains(all[p]));
    }
    at
}

/// Only fonts in use are added: a font that is added is that of an instance.
pub proof fn law_added_font_is_in_use(
    instances: Seq<(FontInstanceKey, Option<FontKey>)>,
    j: int,
) -> (i: int)
    requires
        0 <= j < font_actions(instances).len(),
        font_actions(instances)[j] is AddFont,
    ensures
        0 <= i < instances.len(),
        instances[i].1 == Some(font_actions(instances)[j]->AddFont_0),
    decreases instances.len(),
{
    let before = font_actions(instances.drop_last());
    if j < before.len() {
        law_added_font_is_in_use(instances.drop_last(), j)
    } else {
        instances.len() - 1
    }
}

/// A font is added right before an instance of it.
pub proof fn law_added_font_is_followed_by_its_instance(
    instances: Seq<(FontInstanceKey, Option<FontKey>)>,
    j: int,
)
    requires
        0 <= j < font_actions(instances).len(),
        font_actions(instances)[j] is AddFont,
    ensures
        j + 1 < font_actions(instances).len(),
        font_actions(instances)[j + 1] is AddBlobFont,
        font_actions(instances)[j + 1]->AddBlobFont_1 == font_actions(instances)[j]->AddFont_0,
    decreases instances.len(),
{
    let before = font_actions(instances.drop_last());
    if j < before.len() {
        law_added_font_is_followed_by_its_instance(instances.drop_last(), j);
    }
}

/// A font is added at most once.
pub proof fn law_font_is_added_once(
    instances: Seq<(FontInstanceKey, Option<FontKey>)>,
    i: int,
    j: int,
)
    requires
        0 <= i < j < font_actions(instances).len(),
        font_actions(instances)[i] is AddFont,
    ensures
        font_actions(instances)[i] != font_actions(instances)[j],
    decreases instances.len(),
{
    let before = font_actions(instances.drop_last());
    if j < before.len() {
        law_font_is_added_once(instances.drop_last(), i, j);
    } else if i < before.len() {
        assert(before.contains(before[i]));
    }
}

/// A font is added before any of its instances.
pub proof fn law_font_is_added_before_its_instances(
    instances: Seq<(FontInstanceKey, Option<FontKey>)>,
    j: int,
) -> (i: int)
    requires
        0 <= j < font_actions(instances).len(),
        font_actions(instances)[j] is AddBlobFont,
    ensures
        0 <= i < j,
        font_actions(instances)[i] == FontAction::AddFont(font_actions(instances)[j]->AddBlobFont_1),
    decreases instances.len(),
{
    let before = font_actions(instances.drop_last());
    if j < before.len() {
        law_font_is_added_before_its_instances(instances.drop_last(), j)
    } else {
        let font = font_actions(instances)[j]->AddBlobFont_1;
        if before.contains(FontAction::AddFont(font)) {
            choose|i: int| 0 <= i < before.len() && before[i] == FontAction::AddFont(font)
        } else {
            before.len() as int
        }
    }
}

/// The instances that are added are those that have a font, in their order.
pub proof fn law_instances_with_a_font_are_added(
    instances: Seq<(FontInstanceKey, Option<FontKey>)>,
)
    ensures
        font_actions(instances).filter(|a: FontAction| a is AddBlobFont) == instances.filter(
            |p: (FontInstanceKey, Option<FontKey>)| p.1 is Some,
        ).map_values(
            |p: (FontInstanceKey, Option<FontKey>)|
                FontAction::AddBlobFont(p.0, p.1->0),
        ),
    decreases instances.len(),
{
    let is_instance = |a: FontAction| a is AddBlobFont;
    let has_font = |p: (FontInstanceKey, Option<FontKey>)| p.1 is Some;
    let step = |p: (FontInstanceKey, Option<FontKey>)| FontAction::AddBlobFont(p.0, p.1->0);
    reveal(Seq::filter);
    if instances.len() == 0 {
        assert(instances.filter(has_font).map_values(step) =~= Seq::empty());
        assert(font_actions(instances).filter(is_instance) =~= Seq::empty());
    } else {
        let before = font_actions(instances.drop_last());
        law_instances_with_a_font_are_added(instances.drop_last());
        match instances.last().1 {
            None => {},
            Some(font) => {
                let last = FontAction::AddBlobFont(instances.last().0, font);
                let added = if before.contains(FontAction::AddFont(font)) {
                    before
                } else {
                    before.push(FontAction::AddFont(font))
                };
                assert(added.push(last).drop_last() =~= added);
                assert(before.push(FontAction::AddFont(font)).drop_last() =~= before);
                assert(added.filter(is_instance) == before.filter(is_instance));
                assert(instances.filter(has_font).map_values(step) =~= instances.drop_last().filter(
                    has_font,
                ).map_values(step).push(last));
            },
        }
    }
}

} // verus!
