use moz2d_blob::bytes::{convert_from_bytes, convert_to_bytes, order_of_one, to_usize, ByteOrder};
use moz2d_blob::reader::BufReader;

#[test]
fn numbers_from_bytes() {
    let bytes = [0x12, 0x34, 0x56, 0x78, 0x9a];
    assert_eq!(convert_from_bytes(&bytes, 4, ByteOrder::Little), 0x7856_3412);
    assert_eq!(convert_from_bytes(&bytes, 4, ByteOrder::Big), 0x1234_5678);
    assert_eq!(convert_from_bytes(&bytes, 1, ByteOrder::Big), 0x12);
    assert_eq!(convert_from_bytes(&bytes, 0, ByteOrder::Little), 0);
    assert_eq!(convert_from_bytes(&[0xff; 8], 8, ByteOrder::Little), u64::MAX);
}

#[test]
fn bytes_from_numbers() {
    assert_eq!(convert_to_bytes(0x1234_5678, 4, ByteOrder::Little), vec![0x78, 0x56, 0x34, 0x12]);
    assert_eq!(convert_to_bytes(0x1234_5678, 4, ByteOrder::Big), vec![0x12, 0x34, 0x56, 0x78]);
    assert_eq!(convert_to_bytes(0x1234_5678, 2, ByteOrder::Little), vec![0x78, 0x56]);
    assert_eq!(convert_to_bytes(7, 0, ByteOrder::Big), Vec::<u8>::new());
}

#[test]
fn bytes_are_those_of_the_standard_library() {
    for value in [0u64, 1, 0x0102_0304_0506_0708, u64::MAX] {
        assert_eq!(convert_to_bytes(value, 8, ByteOrder::Little), value.to_le_bytes().to_vec());
        assert_eq!(convert_to_bytes(value, 8, ByteOrder::Big), value.to_be_bytes().to_vec());
        assert_eq!(convert_from_bytes(&value.to_le_bytes(), 8, ByteOrder::Little), value);
        assert_eq!(convert_from_bytes(&value.to_be_bytes(), 8, ByteOrder::Big), value);
    }
}

#[test]
fn round_trips_in_both_orders() {
    for order in [ByteOrder::Little, ByteOrder::Big] {
        let bytes = convert_to_bytes(0xdead_beef, 4, order);
        assert_eq!(convert_from_bytes(&bytes, 4, order), 0xdead_beef);
        let raw = [9u8, 8, 7, 6, 5, 4, 3, 2];
        assert_eq!(convert_to_bytes(convert_from_bytes(&raw, 8, order), 8, order), raw.to_vec());
    }
}

#[test]
fn words() {
    let value: usize = 0x0102_0304;
    assert_eq!(to_usize(&value.to_le_bytes(), ByteOrder::Little), value);
    assert_eq!(to_usize(&value.to_be_bytes(), ByteOrder::Big), value);
}

#[test]
fn order_of_the_machine() {
    assert_eq!(order_of_one([1, 0]), ByteOrder::Little);
    assert_eq!(order_of_one([0, 1]), ByteOrder::Big);
}

#[test]
fn reader_moves_forward() {
    let mut buf = vec![1, 0, 0, 0];
    buf.extend_from_slice(&77usize.to_le_bytes());
    buf.push(5);
    let mut reader = BufReader::new(&buf, ByteOrder::Little);
    assert!(reader.has_more());
    assert_eq!(reader.read_u32(), 1);
    assert_eq!(reader.read_usize(), 77);
    assert!(reader.has_more());
    assert_eq!(reader.read(1), 5);
    assert!(!reader.has_more());
    assert_eq!(reader.pos, buf.len());
    assert!(!BufReader::new(&[], ByteOrder::Little).has_more());
}
