use git5::error::Git5Error;
use git5::object::object_hash;
use git5::pack::{pack_entry_header, parse_pack_header, skip_delta_offset, unpack_pack, UnpackEnd};
use std::io::Write;

fn zlib(data: &[u8]) -> Vec<u8> {
    let mut e = flate2::write::ZlibEncoder::new(Vec::new(), flate2::Compression::default());
    e.write_all(data).unwrap();
    e.finish().unwrap()
}

fn pack_header(version: u32, count: u32) -> Vec<u8> {
    let mut d = b"PACK".to_vec();
    d.extend(version.to_be_bytes());
    d.extend(count.to_be_bytes());
    d
}

fn padded(mut d: Vec<u8>) -> Vec<u8> {
    d.extend([0u8; 20]);
    d
}

fn invalid_object_message(r: Result<u32, Git5Error>) -> String {
    match r {
        Err(Git5Error::InvalidObject(m)) => m,
        _ => panic!("expected an invalid object"),
    }
}

#[test]
fn pack_header_errors() {
    assert_eq!(invalid_object_message(parse_pack_header(b"PACK")), "Packfile is too small");
    let mut bad = padded(pack_header(2, 1));
    bad[3] = b'X';
    assert_eq!(invalid_object_message(parse_pack_header(&bad)), "Invalid packfile magic");
    assert_eq!(
        invalid_object_message(parse_pack_header(&padded(pack_header(3, 1)))),
        "Unsupported pack version: 3"
    );
}

#[test]
fn pack_header_gives_count() {
    assert_eq!(parse_pack_header(&padded(pack_header(2, 0x01020304))).unwrap(), 0x01020304);
    assert_eq!(parse_pack_header(&[b'P', b'A', b'C', b'K', 0, 0, 0, 2, 0, 0, 0, 7, 0, 0, 0, 0, 0, 0, 0, 0, 0, 0, 0, 0, 0, 0, 0, 0, 0, 0, 0, 0]).unwrap(), 7);
}

#[test]
fn entry_header_sizes() {
    assert_eq!(pack_entry_header(&[0x35], 0), Some((3, 5, 1)));
    assert_eq!(pack_entry_header(&[0x00, 0x95, 0x01], 1), Some((1, 21, 3)));
    assert_eq!(pack_entry_header(&[0x95], 0), None);
    assert_eq!(pack_entry_header(&[0x35], 1), None);
}

#[test]
fn delta_offsets() {
    assert_eq!(skip_delta_offset(&[0x05], 0), Some(1));
    assert_eq!(skip_delta_offset(&[0x81, 0x00], 0), Some(2));
    assert_eq!(skip_delta_offset(&[0x80], 0), None);
    assert_eq!(skip_delta_offset(&[], 0), None);
}

#[test]
fn unpack_single_blob() {
    let mut d = pack_header(2, 1);
    d.push(0x35);
    d.extend(zlib(b"hello"));
    let d = padded(d);
    let report = unpack_pack(&d, 1);
    assert!(matches!(report.end, UnpackEnd::Complete));
    assert_eq!(report.deltas, 0);
    assert_eq!(report.objects.len(), 1);
    assert_eq!(report.objects[0].object.id, object_hash("blob", b"hello"));
    let back = git5::object::decode_object(&report.objects[0].object.compressed).unwrap();
    assert_eq!(back, ("blob".to_string(), b"hello".to_vec()));
}

#[test]
fn unpack_skips_offset_delta() {
    let mut d = pack_header(2, 1);
    d.push(0x63);
    d.push(0x05);
    d.extend(zlib(b"abc"));
    let report = unpack_pack(&padded(d), 1);
    assert!(matches!(report.end, UnpackEnd::Complete));
    assert_eq!(report.deltas, 1);
    assert_eq!(report.objects.len(), 0);
}

#[test]
fn unpack_unknown_type_fails() {
    let mut d = pack_header(2, 1);
    d.push(0x53);
    d.extend(zlib(b"abc"));
    let report = unpack_pack(&padded(d), 1);
    match report.end {
        UnpackEnd::Failed(Git5Error::InvalidObject(m)) => assert_eq!(m, "Unknown object type 5"),
        _ => panic!("expected a failure"),
    }
    assert_eq!(report.objects.len(), 0);
}

#[test]
fn unpack_past_the_data_is_malformed() {
    let report = unpack_pack(&pack_header(2, 1), 1);
    assert!(matches!(report.end, UnpackEnd::Malformed));
    let mut d = pack_header(2, 1);
    d.push(0xb5);
    assert!(matches!(unpack_pack(&d, 1).end, UnpackEnd::Malformed));
    let empty = unpack_pack(&pack_header(2, 0), 0);
    assert!(matches!(empty.end, UnpackEnd::Complete));
    assert_eq!(empty.objects.len(), 0);
}

#[test]
fn stream_end_positions() {
    assert_eq!(git5::pack::stream_end(10, 3, 7), Some(10));
    assert_eq!(git5::pack::stream_end(10, 3, 0), Some(3));
    assert_eq!(git5::pack::stream_end(10, 3, 8), None);
}

#[test]
fn unpack_skips_delta_then_reads_blob() {
    let mut d = pack_header(2, 2);
    d.push(0x63);
    d.push(0x05);
    d.extend(zlib(b"delta data"));
    d.push(0x35);
    d.extend(zlib(b"hello"));
    let report = unpack_pack(&padded(d), 2);
    assert_eq!(report.deltas, 1);
    assert_eq!(report.objects.len(), 1);
    assert_eq!(report.objects[0].object.id, object_hash("blob", b"hello"));
}
