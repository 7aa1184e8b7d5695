use moz2d_blob::bytes::ByteOrder;
use moz2d_blob::geometry::Box2d;
use moz2d_blob::index::{check_result, read_index};
use moz2d_blob::merge::{can_merge_blob_images, merge_blob_images};
use moz2d_blob::writer::BlobWriter;

const ORDERS: [ByteOrder; 2] = [ByteOrder::Little, ByteOrder::Big];
const DIRTY: Box2d = Box2d { x1: 100, y1: 100, x2: 200, y2: 200 };

fn clean(n: u32) -> Box2d {
    Box2d { x1: n, y1: n, x2: n + 1, y2: n + 1 }
}

fn dirty(n: u32) -> Box2d {
    clean(100 + n)
}

fn blob(items: &[(Box2d, &[u8], usize)], order: ByteOrder) -> Vec<u8> {
    let mut writer = BlobWriter::new(order);
    for (bounds, data, extra_size) in items {
        writer.new_entry(*extra_size, *bounds, data);
    }
    writer.finish()
}

fn word(value: usize) -> Vec<u8> {
    value.to_le_bytes().to_vec()
}

/// A little-endian blob with the given records.
fn raw_blob(data: &[u8], records: &[(usize, usize, Box2d)]) -> Vec<u8> {
    let mut bytes = data.to_vec();
    for (end, extra_end, b) in records {
        bytes.extend(word(*end));
        bytes.extend(word(*extra_end));
        for n in [b.x1, b.y1, b.x2, b.y2] {
            bytes.extend_from_slice(&n.to_le_bytes());
        }
    }
    bytes.extend(word(data.len()));
    bytes
}

/// The bounds, the data and the extra data of each item.
fn items(blob: &[u8], order: ByteOrder) -> Vec<(Box2d, Vec<u8>, Vec<u8>)> {
    read_index(blob, order)
        .iter()
        .map(|e| (e.bounds, blob[e.begin..e.end].to_vec(), blob[e.end..e.extra_end].to_vec()))
        .collect()
}

#[test]
fn dirty_items_are_new_and_others_are_old() {
    for order in ORDERS {
        let old = blob(
            &[(clean(1), b"old1", 1), (dirty(2), b"dropped", 0), (clean(3), b"old3", 2)],
            order,
        );
        let new = blob(
            &[(clean(1), b"n1", 0), (clean(3), b"n3", 0), (dirty(7), b"fresh", 3)],
            order,
        );
        assert!(can_merge_blob_images(&old, &new, DIRTY, order));
        let result = merge_blob_images(&old, &new, DIRTY, order);
        assert!(check_result(&result, order));
        assert_eq!(
            items(&result, order),
            vec![
                (clean(1), b"old".to_vec(), b"1".to_vec()),
                (clean(3), b"ol".to_vec(), b"d3".to_vec()),
                (dirty(7), b"fr".to_vec(), b"esh".to_vec()),
            ]
        );
        assert_eq!(
            result,
            blob(&[(clean(1), b"old1", 1), (clean(3), b"old3", 2), (dirty(7), b"fresh", 3)], order)
        );
    }
}

#[test]
fn items_with_equal_bounds_keep_their_order() {
    let order = ByteOrder::Little;
    let old = blob(&[(clean(1), b"a", 0), (clean(2), b"b", 0), (clean(1), b"c", 0)], order);
    let new = blob(&[(clean(1), b"", 0), (clean(1), b"", 0), (clean(2), b"", 0)], order);
    assert!(can_merge_blob_images(&old, &new, DIRTY, order));
    let result = merge_blob_images(&old, &new, DIRTY, order);
    assert_eq!(
        result,
        blob(&[(clean(1), b"a", 0), (clean(1), b"c", 0), (clean(2), b"b", 0)], order)
    );
}

#[test]
fn items_may_change_places() {
    let order = ByteOrder::Little;
    let old = blob(&[(clean(1), b"a", 0), (clean(2), b"b", 0), (clean(3), b"c", 0)], order);
    let new = blob(&[(clean(3), b"", 0), (clean(1), b"", 0), (clean(2), b"", 0)], order);
    let result = merge_blob_images(&old, &new, DIRTY, order);
    assert_eq!(
        result,
        blob(&[(clean(3), b"c", 0), (clean(1), b"a", 0), (clean(2), b"b", 0)], order)
    );
}

#[test]
fn items_in_the_same_order_stay_in_it() {
    let order = ByteOrder::Little;
    let old = blob(&[(dirty(1), b"x", 0), (clean(1), b"a", 0), (clean(2), b"b", 0)], order);
    let new = blob(&[(clean(1), b"", 0), (dirty(2), b"y", 0), (clean(2), b"", 0)], order);
    let result = merge_blob_images(&old, &new, DIRTY, order);
    assert_eq!(
        result,
        blob(&[(clean(1), b"a", 0), (dirty(2), b"y", 0), (clean(2), b"b", 0)], order)
    );
}

#[test]
fn all_dirty_gives_the_new_blob() {
    let order = ByteOrder::Big;
    let old = blob(&[(dirty(1), b"old", 1)], order);
    let new = blob(&[(dirty(2), b"new", 2), (dirty(3), b"newer", 0)], order);
    assert_eq!(merge_blob_images(&old, &new, DIRTY, order), new);
}

#[test]
fn nothing_may_be_left() {
    let order = ByteOrder::Little;
    let old = blob(&[(dirty(1), b"old", 1)], order);
    let new = blob(&[], order);
    assert!(can_merge_blob_images(&old, &new, DIRTY, order));
    assert_eq!(merge_blob_images(&old, &new, DIRTY, order), new);
}

#[test]
fn merging_a_blob_with_itself_gives_it_back() {
    for order in ORDERS {
        let same = blob(
            &[(clean(1), b"abc", 1), (dirty(2), b"de", 2), (clean(1), b"f", 0)],
            order,
        );
        assert!(can_merge_blob_images(&same, &same, DIRTY, order));
        assert_eq!(merge_blob_images(&same, &same, DIRTY, order), same);
    }
}

#[test]
fn unused_data_is_dropped() {
    let same = raw_blob(b"abc___", &[(2, 3, clean(1))]);
    let order = ByteOrder::Little;
    assert!(can_merge_blob_images(&same, &same, DIRTY, order));
    assert_eq!(merge_blob_images(&same, &same, DIRTY, order), blob(&[(clean(1), b"abc", 1)], order));
}

#[test]
fn merged_blob_can_be_merged_again() {
    let order = ByteOrder::Little;
    let old = blob(&[(clean(1), b"old", 0), (dirty(2), b"two", 0)], order);
    let new = blob(&[(clean(1), b"", 0), (dirty(3), b"three", 0)], order);
    let next = blob(&[(dirty(4), b"four", 0), (clean(1), b"", 0)], order);
    let once = merge_blob_images(&old, &new, DIRTY, order);
    assert!(can_merge_blob_images(&once, &next, DIRTY, order));
    let twice = merge_blob_images(&once, &next, DIRTY, order);
    assert_eq!(twice, blob(&[(dirty(4), b"four", 0), (clean(1), b"old", 0)], order));
}

#[test]
fn unreadable_blobs_do_not_merge() {
    let order = ByteOrder::Little;
    let good = blob(&[], order);
    assert!(can_merge_blob_images(&good, &good, DIRTY, order));
    assert!(!can_merge_blob_images(&[], &good, DIRTY, order));
    assert!(!can_merge_blob_images(&good, &[1], DIRTY, order));
}

#[test]
fn missing_old_item() {
    let order = ByteOrder::Little;
    let old = blob(&[(clean(1), b"a", 0)], order);
    let new = blob(&[(clean(1), b"", 0), (clean(1), b"", 0)], order);
    assert!(!can_merge_blob_images(&old, &new, DIRTY, order));
}

#[test]
fn old_item_that_would_be_lost() {
    let order = ByteOrder::Little;
    let old = blob(&[(clean(1), b"a", 0), (clean(2), b"b", 0)], order);
    // One that is read past, and one that is never reached.
    assert!(!can_merge_blob_images(&old, &blob(&[(clean(2), b"", 0)], order), DIRTY, order));
    assert!(!can_merge_blob_images(&old, &blob(&[(clean(1), b"", 0)], order), DIRTY, order));
}

#[test]
fn offsets_outside_the_buffers() {
    let order = ByteOrder::Little;
    let none = blob(&[], order);
    let new = blob(&[(clean(1), b"", 0)], order);
    // Past the end of the buffer.
    let far = raw_blob(b"abc", &[(2, 1000, dirty(1))]);
    assert!(!can_merge_blob_images(&none, &far, DIRTY, order));
    let far = raw_blob(b"abc", &[(2, 1000, clean(1))]);
    assert!(!can_merge_blob_images(&far, &new, DIRTY, order));
    // The extra data ends before it starts.
    let crossed = raw_blob(b"abc", &[(3, 2, dirty(1))]);
    assert!(!can_merge_blob_images(&none, &crossed, DIRTY, order));
    // The second item ends before it begins.
    let backwards = raw_blob(b"abcd", &[(4, 4, dirty(1)), (1, 2, dirty(2))]);
    assert!(!can_merge_blob_images(&none, &backwards, DIRTY, order));
    // An old item that is dropped may point anywhere.
    let far = raw_blob(b"abc", &[(5000, 1000, dirty(1))]);
    assert!(can_merge_blob_images(&far, &none, DIRTY, order));
}

#[test]
fn extra_data_that_starts_before_the_item() {
    let order = ByteOrder::Little;
    let none = blob(&[], order);
    // The second item's extra data starts inside the first item.
    let new = raw_blob(b"abcd", &[(3, 3, dirty(1)), (1, 4, dirty(2))]);
    assert!(can_merge_blob_images(&none, &new, DIRTY, order));
    assert_eq!(merge_blob_images(&none, &new, DIRTY, order), new);
    // With the first item gone there is not so much data.
    let old = raw_blob(b"abcd", &[(3, 3, dirty(1)), (1, 4, clean(2))]);
    let new = blob(&[(clean(2), b"", 0)], order);
    assert!(!can_merge_blob_images(&old, &new, DIRTY, order));
}

#[test]
fn merging_twice_changes_nothing() {
    for order in ORDERS {
        let old = blob(&[(clean(2), b"two", 1), (dirty(1), b"x", 0), (clean(1), b"one", 0)], order);
        let new = blob(&[(clean(1), b"", 0), (dirty(2), b"y", 1), (clean(2), b"", 0)], order);
        let once = merge_blob_images(&old, &new, DIRTY, order);
        assert!(can_merge_blob_images(&once, &new, DIRTY, order));
        assert_eq!(merge_blob_images(&once, &new, DIRTY, order), once);
    }
}
