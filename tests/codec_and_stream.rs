use bytestream_to_packagestream::package::{
    byte_stream_to_u32, create_test_package, payload_size_to_byte_stream, Package, PackageInfo,
    ReadStreamResult,
};
use bytestream_to_packagestream::stream_reader::Stream;

fn decode(bytes: &Vec<u8>, start: u32) -> (ReadStreamResult, PackageInfo) {
    let mut info = PackageInfo::new(start);
    let r = byte_stream_to_u32(bytes, &mut info);
    (r, info)
}

fn serialized(size: u32) -> Vec<u8> {
    create_test_package(size).create_bytestram()
}

#[test]
fn encode_zero_payload() {
    assert_eq!(payload_size_to_byte_stream(0), vec![0x81]);
}

#[test]
fn encode_header_length_boundaries() {
    assert_eq!(payload_size_to_byte_stream(126).len(), 1);
    assert_eq!(payload_size_to_byte_stream(127).len(), 2);
    assert_eq!(payload_size_to_byte_stream(16381).len(), 2);
    assert_eq!(payload_size_to_byte_stream(16382).len(), 3);
    assert_eq!(payload_size_to_byte_stream(u32::MAX).len(), 5);
}

#[test]
fn encode_large_value_exact() {
    // 2_097_148 + 3 = 2_097_151 = 0x1F_FFFF: three full groups.
    assert_eq!(payload_size_to_byte_stream(2_097_148), vec![0x7F, 0x7F, 0xFF]);
}

#[test]
fn round_trip_edges() {
    for p in [0u32, 1, 126, 127, 16381, 16382, 2_097_148, 268_435_451, u32::MAX - 5] {
        let v = payload_size_to_byte_stream(p);
        let (r, info) = decode(&v, 0);
        assert_eq!(r, ReadStreamResult::Success);
        assert_eq!(*info.info_length_in_bytes() as usize, v.len());
        assert_eq!(info.get_payload_size(), p);
    }
}

#[test]
fn decode_too_few_bytes() {
    let (r, info) = decode(&vec![0x01, 0x00], 0);
    assert_eq!(r, ReadStreamResult::TooFewBytes);
    assert_eq!(*info.package_size(), 0);
    assert_eq!(*info.info_length_in_bytes(), 0);
}

#[test]
fn decode_corrupt_after_five_bytes() {
    let (r, _) = decode(&vec![0x00, 0x00, 0x00, 0x00, 0x00, 0x81], 0);
    assert_eq!(r, ReadStreamResult::CorruptStream);
    let (r, _) = decode(&vec![0x00, 0x00, 0x00, 0x00, 0x00], 0);
    assert_eq!(r, ReadStreamResult::TooFewBytes);
}

#[test]
fn decode_total_smaller_than_header_is_corrupt() {
    let (r, _) = decode(&vec![0x80], 0);
    assert_eq!(r, ReadStreamResult::CorruptStream);
}

#[test]
fn decode_at_offset() {
    let (r, info) = decode(&vec![0x05, 0x01, 0x81, 0x00], 1);
    assert_eq!(r, ReadStreamResult::Success);
    assert_eq!(*info.start_pos(), 1);
    assert_eq!(*info.package_size(), 129);
    assert_eq!(*info.info_length_in_bytes(), 2);
    assert_eq!(info.get_payload_size(), 127);
    let (r, _) = decode(&vec![0x05], 1);
    assert_eq!(r, ReadStreamResult::PositionOutOfScope);
}

#[test]
fn add_bytes_takes_only_what_is_missing() {
    let source: Vec<u8> = vec![10, 11, 12, 13, 14, 15];
    let mut p = Package::new(4);
    assert_eq!(p.add_bytes_to_payload(4, &source), 2);
    assert!(!p.is_payload_complete());
    assert_eq!(p.add_bytes_to_payload(0, &source), 2);
    assert!(p.is_payload_complete());
    assert_eq!(p.payload(), &vec![14, 15, 10, 11]);
    assert_eq!(p.add_bytes_to_payload(0, &source), 0);
    assert_eq!(p.add_bytes_to_payload(6, &source), 0);
}

#[test]
fn serialize_and_iterate() {
    let mut p = create_test_package(3);
    assert_eq!(p.create_bytestram(), vec![0x84, 0, 1, 2]);
    assert_eq!(p.next(), None);
    p.reset_iterator();
    assert_eq!(p.next(), Some(0x84));
    assert_eq!(p.next(), Some(0));
    assert_eq!(p.next(), Some(1));
    assert_eq!(p.next(), Some(2));
    assert_eq!(p.next(), None);
    let mut empty = Package::new(0);
    assert!(empty.is_payload_complete());
    assert_eq!(empty.create_bytestram(), vec![0x81]);
}

#[test]
fn sample_payload_wraps_at_255() {
    let p = create_test_package(300);
    assert_eq!(p.payload()[254], 254);
    assert_eq!(p.payload()[255], 0);
    assert_eq!(p.payload()[299], 44);
}

#[test]
fn equality_compares_payload_only() {
    let mut a = Package::new(3);
    a.add_bytes_to_payload(0, &vec![1, 2]);
    let mut b = Package::new(2);
    b.add_bytes_to_payload(0, &vec![1, 2]);
    assert_eq!(a, b);
    let mut c = Package::new(2);
    c.add_bytes_to_payload(0, &vec![1, 3]);
    assert_ne!(b, c);
    assert_ne!(a, Package::new(3));
}

#[test]
fn single_byte_delivery() {
    let bytes = serialized(5);
    let mut stream = Stream::new();
    for (i, b) in bytes.iter().enumerate() {
        let r = stream.add_new_bytes_to_stream(vec![*b]);
        if i + 1 < bytes.len() {
            assert_eq!(r.packages().len(), 0);
            assert_eq!(*r.left_bytes(), 0);
        } else {
            assert_eq!(r.packages().len(), 1);
            assert_eq!(r.packages()[0].payload(), &vec![0, 1, 2, 3, 4]);
            assert_eq!(*r.read_stream_result(), ReadStreamResult::PositionOutOfScope);
        }
    }
}

#[test]
fn back_to_back_packages_in_one_chunk() {
    let mut bytes = serialized(5);
    bytes.extend(serialized(8));
    let mut stream = Stream::new();
    let r = stream.add_new_bytes_to_stream(bytes);
    assert_eq!(r.packages().len(), 2);
    assert_eq!(r.packages()[0], create_test_package(5));
    assert_eq!(r.packages()[1], create_test_package(8));
    assert_eq!(*r.left_bytes(), 0);
    assert_eq!(*r.read_stream_result(), ReadStreamResult::Success);
}

#[test]
fn chunking_gives_same_packages_as_whole() {
    let mut bytes = serialized(1000);
    bytes.extend(serialized(2));
    let mut whole = Stream::new();
    let expected: Vec<Package> = whole.add_new_bytes_to_stream(bytes.clone()).packages;
    assert_eq!(expected.len(), 2);
    for chunk in [1usize, 7, 100, 1001, 2000] {
        let mut stream = Stream::new();
        let mut got: Vec<Package> = Vec::new();
        for part in bytes.chunks(chunk) {
            let r = stream.add_new_bytes_to_stream(part.to_vec());
            got.extend(r.packages);
        }
        assert_eq!(got, expected);
    }
}

#[test]
fn leftover_counts_partial_header() {
    let mut stream = Stream::new();
    let r = stream.add_new_bytes_to_stream(vec![0x01]);
    assert_eq!(r.packages().len(), 0);
    assert_eq!(*r.left_bytes(), 1);
    assert_eq!(*r.read_stream_result(), ReadStreamResult::TooFewBytes);
    let r = stream.add_new_bytes_to_stream(Vec::new());
    assert_eq!(r.packages().len(), 0);
    assert_eq!(*r.left_bytes(), 1);
    // 0x01 0x81 states 129: a two-byte header and 127 bytes of payload.
    let mut rest = vec![0x81];
    rest.extend(vec![7u8; 127]);
    rest.push(0x01);
    let r = stream.add_new_bytes_to_stream(rest);
    assert_eq!(r.packages().len(), 1);
    assert_eq!(r.packages()[0].payload().len(), 127);
    assert_eq!(*r.left_bytes(), 1);
    assert_eq!(*r.read_stream_result(), ReadStreamResult::TooFewBytes);
}

#[test]
fn empty_chunk_with_package_in_flight() {
    let bytes = serialized(10);
    let mut stream = Stream::new();
    let r = stream.add_new_bytes_to_stream(bytes[..4].to_vec());
    assert_eq!(r.packages().len(), 0);
    assert_eq!(*r.left_bytes(), 0);
    assert_eq!(*r.read_stream_result(), ReadStreamResult::Success);
    let r = stream.add_new_bytes_to_stream(Vec::new());
    assert_eq!(r.packages().len(), 0);
    assert_eq!(*r.left_bytes(), 0);
    assert_eq!(*r.read_stream_result(), ReadStreamResult::FailUnknownReason);
    let r = stream.add_new_bytes_to_stream(bytes[4..].to_vec());
    assert_eq!(r.packages().len(), 1);
    assert_eq!(r.packages()[0], create_test_package(10));
}

#[test]
fn zero_payload_package_completes_at_header() {
    let mut stream = Stream::new();
    let r = stream.add_new_bytes_to_stream(vec![0x81, 0x81]);
    assert_eq!(r.packages().len(), 2);
    assert_eq!(r.packages()[0].payload().len(), 0);
}

#[test]
fn corrupt_header_is_surfaced_and_kept() {
    let mut stream = Stream::new();
    let mut bytes = serialized(2);
    bytes.extend(vec![0x00; 6]);
    let r = stream.add_new_bytes_to_stream(bytes);
    assert_eq!(r.packages().len(), 1);
    assert_eq!(*r.left_bytes(), 6);
    assert_eq!(*r.read_stream_result(), ReadStreamResult::CorruptStream);
    let r = stream.add_new_bytes_to_stream(serialized(1));
    assert_eq!(r.packages().len(), 0);
    assert_eq!(*r.left_bytes(), 8);
    assert_eq!(*r.read_stream_result(), ReadStreamResult::CorruptStream);
}
