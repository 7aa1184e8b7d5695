use moz2d_blob::bytes::ByteOrder;
use moz2d_blob::fonts::{
    can_prepare_request, load_fonts, prepare_request, process_fonts, BlobFont, FontAction,
};
use moz2d_blob::geometry::Box2d;
use moz2d_blob::keys::{FontInstanceKey, FontKey, IdNamespace};
use moz2d_blob::reader::BufReader;
use moz2d_blob::writer::BlobWriter;

const LITTLE: ByteOrder = ByteOrder::Little;
const BOUNDS: Box2d = Box2d { x1: 1, y1: 2, x2: 3, y2: 4 };

fn instance(n: u32) -> FontInstanceKey {
    FontInstanceKey(IdNamespace(9), n)
}

fn font(n: u32) -> FontKey {
    FontKey(IdNamespace(8), n)
}

fn extra(count: usize, fonts: &[u32]) -> Vec<u8> {
    let mut bytes = count.to_le_bytes().to_vec();
    for n in fonts {
        bytes.extend_from_slice(&9u32.to_le_bytes());
        bytes.extend_from_slice(&n.to_le_bytes());
        bytes.extend_from_slice(&0x1122_3344_5566_7788u64.to_le_bytes());
    }
    bytes
}

fn blob(extras: &[Vec<u8>]) -> Vec<u8> {
    let mut writer = BlobWriter::new(LITTLE);
    for extra in extras {
        let mut data = b"commands".to_vec();
        data.extend_from_slice(extra);
        writer.new_entry(extra.len(), BOUNDS, &data);
    }
    writer.finish()
}

#[test]
fn font_record_is_read() {
    let bytes = extra(1, &[5]);
    let mut reader = BufReader::new(&bytes, LITTLE);
    assert_eq!(reader.read_usize(), 1);
    assert_eq!(
        reader.read_blob_font(),
        BlobFont { font_instance_key: instance(5), scaled_font_ptr: 0x1122_3344_5566_7788 }
    );
    assert!(!reader.has_more());
}

#[test]
fn fonts_are_added_to_those_seen() {
    let bytes = extra(3, &[5, 6, 5]);
    let mut seen = vec![instance(6)];
    process_fonts(BufReader::new(&bytes, LITTLE), &mut seen);
    assert_eq!(seen, vec![instance(6), instance(5)]);
}

#[test]
fn only_announced_fonts_are_read() {
    let bytes = extra(1, &[5, 6]);
    let mut seen = Vec::new();
    process_fonts(BufReader::new(&bytes, LITTLE), &mut seen);
    assert_eq!(seen, vec![instance(5)]);
}

#[test]
fn each_font_is_requested_once() {
    let bytes = blob(&[extra(2, &[3, 1]), extra(0, &[]), extra(3, &[1, 2, 3])]);
    assert!(can_prepare_request(&bytes, LITTLE));
    assert_eq!(prepare_request(&bytes, LITTLE), vec![instance(3), instance(1), instance(2)]);
}

#[test]
fn blob_without_items_needs_no_fonts() {
    let bytes = blob(&[]);
    assert!(can_prepare_request(&bytes, LITTLE));
    assert!(prepare_request(&bytes, LITTLE).is_empty());
}

#[test]
fn fonts_that_cannot_be_read() {
    // Not a blob.
    assert!(!can_prepare_request(&[1, 2], LITTLE));
    // No room for the number of fonts.
    assert!(!can_prepare_request(&blob(&[vec![]]), LITTLE));
    // Fewer fonts than announced.
    assert!(!can_prepare_request(&blob(&[extra(2, &[1])]), LITTLE));
    assert!(!can_prepare_request(&blob(&[extra(usize::MAX, &[1])]), LITTLE));
    // Extra data outside the blob.
    let mut bytes = 0usize.to_le_bytes().to_vec();
    bytes.extend_from_slice(&1000usize.to_le_bytes());
    bytes.extend_from_slice(&[0; 16]);
    bytes.extend_from_slice(&0usize.to_le_bytes());
    assert!(!can_prepare_request(&bytes, LITTLE));
    // Extra data that ends before it starts.
    let mut bytes = 9usize.to_le_bytes().to_vec();
    bytes.extend_from_slice(&8usize.to_le_bytes());
    bytes.extend_from_slice(&[0; 16]);
    bytes.extend_from_slice(&0usize.to_le_bytes());
    assert!(!can_prepare_request(&bytes, LITTLE));
}

#[test]
fn font_is_added_once_and_before_its_instances() {
    let instances = vec![
        (instance(1), Some(font(10))),
        (instance(2), None),
        (instance(3), Some(font(11))),
        (instance(4), Some(font(10))),
    ];
    assert_eq!(
        load_fonts(&instances),
        vec![
            FontAction::AddFont(font(10)),
            FontAction::AddBlobFont(instance(1), font(10)),
            FontAction::AddFont(font(11)),
            FontAction::AddBlobFont(instance(3), font(11)),
            FontAction::AddBlobFont(instance(4), font(10)),
        ]
    );
    assert!(load_fonts(&Vec::new()).is_empty());
    assert!(load_fonts(&vec![(instance(1), None)]).is_empty());
}
