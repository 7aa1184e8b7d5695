use moz2d_blob::bytes::ByteOrder;
use moz2d_blob::cache::{find_with_bounds, CachedReader};
use moz2d_blob::geometry::Box2d;
use moz2d_blob::index::{check_result, dump_blob_index, find_index, read_index, BlobReader, Entry};
use moz2d_blob::writer::BlobWriter;

const LITTLE: ByteOrder = ByteOrder::Little;

fn bounds(n: u32) -> Box2d {
    Box2d { x1: n, y1: n + 1, x2: n + 2, y2: n + 3 }
}

fn word(value: usize) -> Vec<u8> {
    value.to_le_bytes().to_vec()
}

fn record(end: usize, extra_end: usize, b: Box2d) -> Vec<u8> {
    let mut bytes = word(end);
    bytes.extend(word(extra_end));
    for n in [b.x1, b.y1, b.x2, b.y2] {
        bytes.extend_from_slice(&n.to_le_bytes());
    }
    bytes
}

fn blob(items: &[(Box2d, &[u8], usize)], order: ByteOrder) -> Vec<u8> {
    let mut writer = BlobWriter::new(order);
    for (bounds, data, extra_size) in items {
        writer.new_entry(*extra_size, *bounds, data);
    }
    writer.finish()
}

#[test]
fn layout_of_a_blob() {
    let written = blob(&[(bounds(1), b"abcd", 1), (bounds(7), b"xyz", 3)], LITTLE);
    let mut expected = b"abcdxyz".to_vec();
    expected.extend(record(3, 4, bounds(1)));
    expected.extend(record(4, 7, bounds(7)));
    expected.extend(word(7));
    assert_eq!(written, expected);
}

#[test]
fn what_was_written_can_be_read() {
    for order in [ByteOrder::Little, ByteOrder::Big] {
        let written = blob(&[(bounds(1), b"abcd", 1), (bounds(7), b"xyz", 3)], order);
        assert!(check_result(&written, order));
        let entries = read_index(&written, order);
        assert_eq!(
            entries,
            vec![
                Entry { bounds: bounds(1), begin: 0, end: 3, extra_end: 4 },
                Entry { bounds: bounds(7), begin: 4, end: 4, extra_end: 7 },
            ]
        );
        assert_eq!(&written[entries[0].begin..entries[0].extra_end], b"abcd");
        assert_eq!(&written[entries[0].end..entries[0].extra_end], b"d");
        assert_eq!(&written[entries[1].begin..entries[1].extra_end], b"xyz");
    }
}

#[test]
fn items_are_adjacent() {
    let mut bytes = record(10, 20, bounds(0));
    bytes.extend(record(30, 40, bounds(1)));
    bytes.extend(word(0));
    let mut reader = BlobReader::new(&bytes, LITTLE);
    let first = reader.read_entry();
    let second = reader.read_entry();
    assert_eq!((first.begin, first.end, first.extra_end), (0, 10, 20));
    assert_eq!((second.begin, second.end, second.extra_end), (20, 30, 40));
    assert!(!reader.reader.has_more());
}

#[test]
fn blob_without_items_can_be_read() {
    let written = blob(&[], LITTLE);
    assert_eq!(written, word(0));
    assert!(check_result(&written, LITTLE));
    assert!(read_index(&written, LITTLE).is_empty());
}

#[test]
fn too_short_for_an_offset() {
    assert!(!find_index(&[], LITTLE));
    assert!(!check_result(&[0, 0, 0], LITTLE));
}

#[test]
fn index_past_the_end() {
    let mut bytes = b"ab".to_vec();
    bytes.extend(word(2));
    assert!(find_index(&bytes, LITTLE));
    assert!(check_result(&bytes, LITTLE));
    let mut bytes = b"ab".to_vec();
    bytes.extend(word(3));
    assert!(!find_index(&bytes, LITTLE));
    assert!(!check_result(&bytes, LITTLE));
}

#[test]
fn broken_record() {
    let mut bytes = record(0, 0, bounds(0));
    bytes.push(1);
    bytes.extend(word(0));
    assert!(find_index(&bytes, LITTLE));
    assert!(!check_result(&bytes, LITTLE));
}

#[test]
fn dump_marks_what_is_dirty() {
    let written = blob(&[(bounds(1), b"", 0), (bounds(7), b"", 0)], LITTLE);
    let dirty = Box2d { x1: 5, y1: 5, x2: 20, y2: 20 };
    assert_eq!(
        dump_blob_index(&written, dirty, LITTLE),
        vec![(bounds(1), false), (bounds(7), true)]
    );
}

#[test]
fn first_match_is_found() {
    let entry = |b: u32, begin: usize| Entry { bounds: bounds(b), begin, end: 0, extra_end: 0 };
    let entries = vec![entry(1, 0), entry(2, 1), entry(2, 2)];
    assert_eq!(find_with_bounds(&entries, &bounds(2)), 1);
    assert_eq!(find_with_bounds(&entries, &bounds(3)), 3);
}

#[test]
fn cached_reader_keeps_the_order() {
    let written = blob(
        &[
            (bounds(1), b"a", 0),
            (bounds(100), b"b", 0),
            (bounds(2), b"c", 0),
            (bounds(1), b"d", 0),
            (bounds(3), b"e", 0),
        ],
        LITTLE,
    );
    let ignore = Box2d { x1: 100, y1: 100, x2: 200, y2: 200 };
    let mut reader = CachedReader::new(&written, LITTLE);
    assert_eq!(reader.take_entry_with_bounds_from_cache(&bounds(1)), None);
    assert_eq!(reader.next_entry_with_bounds(&bounds(3), &ignore).begin, 4);
    // The ignored item is gone, the others are kept.
    assert_eq!(reader.cache.len(), 3);
    assert_eq!(reader.next_entry_with_bounds(&bounds(1), &ignore).begin, 0);
    assert_eq!(reader.next_entry_with_bounds(&bounds(1), &ignore).begin, 3);
    assert_eq!(reader.take_entry_with_bounds_from_cache(&bounds(2)).unwrap().begin, 2);
    assert_eq!(reader.take_entry_with_bounds_from_cache(&bounds(100)), None);
    assert!(reader.cache.is_empty());
    assert!(!reader.reader.reader.has_more());
}
