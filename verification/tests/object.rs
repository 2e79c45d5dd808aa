use git5::error::Git5Error;
use git5::object::{decode_object, encode_object, object_hash, prepare_object};
use std::io::Write;

fn zlib(data: &[u8]) -> Vec<u8> {
    let mut e = flate2::write::ZlibEncoder::new(Vec::new(), flate2::Compression::default());
    e.write_all(data).unwrap();
    e.finish().unwrap()
}

#[test]
fn encode_object_puts_header_before_content() {
    assert_eq!(encode_object("blob", b"hello world"), b"blob 11\0hello world".to_vec());
    assert_eq!(encode_object("tree", b""), b"tree 0\0".to_vec());
}

#[test]
fn object_hash_of_known_blobs() {
    assert_eq!(object_hash("blob", b"hello world"), "95d09f2b10159347eece71399a7e2e907ea3df4f");
    assert_eq!(object_hash("blob", b""), "e69de29bb2d1d6434b8b29ae775ad8c2e48c5391");
    assert_eq!(object_hash("tree", b""), "4b825dc642cb6eb9a060e54bf8d69288fbee4904");
}

#[test]
fn prepared_object_reads_back() {
    let p = prepare_object("commit", b"tree abc\n\nmsg\n").unwrap();
    assert_eq!(p.id, object_hash("commit", b"tree abc\n\nmsg\n"));
    assert_eq!(p.id.len(), 40);
    let (t, c) = decode_object(&p.compressed).unwrap();
    assert_eq!(t, "commit");
    assert_eq!(c, b"tree abc\n\nmsg\n".to_vec());
}

#[test]
fn prepared_object_is_zlib_of_store() {
    let p = prepare_object("blob", b"hello world").unwrap();
    let mut d = flate2::read::ZlibDecoder::new(p.compressed.as_slice());
    let mut raw = Vec::new();
    std::io::Read::read_to_end(&mut d, &mut raw).unwrap();
    assert_eq!(raw, b"blob 11\0hello world".to_vec());
}

#[test]
fn decode_object_not_zlib_is_io_error() {
    assert!(matches!(decode_object(b"plainly not zlib"), Err(Git5Error::IoError(_))));
}

#[test]
fn decode_object_without_nul_is_invalid() {
    match decode_object(&zlib(b"blob 3 abc")) {
        Err(Git5Error::InvalidObject(m)) => assert_eq!(m, "Invalid object format"),
        _ => panic!("expected an invalid object"),
    }
}

#[test]
fn decode_object_with_bad_header_is_parse_error() {
    match decode_object(&zlib(b"bl\xffob 3\0abc")) {
        Err(Git5Error::ParseError(m)) => assert_eq!(m, "Invalid object header"),
        _ => panic!("expected a parse error"),
    }
}

#[test]
fn decode_object_type_is_text_before_space() {
    let (t, c) = decode_object(&zlib(b"tag\0xyz")).unwrap();
    assert_eq!(t, "tag");
    assert_eq!(c, b"xyz".to_vec());
    let (t, c) = decode_object(&zlib(b"blob 1 2\0\0q")).unwrap();
    assert_eq!(t, "blob");
    assert_eq!(c, b"\0q".to_vec());
}
