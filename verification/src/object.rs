//! Loose objects: a header `type size\0` before the content, named by the
//! SHA-1 of the whole and stored zlib-compressed.
use vstd::prelude::*;
use vstd::string::*;
use vstd::utf8::{encode_utf8, decode_utf8, valid_utf8};
use crate::error::Git5Error;
use crate::codec::{
    hex_lower, sha1_of, sha1_digest, hex_encode, zlib_of, unzlib_of, zlib_compress,
    zlib_decompress, utf8_strict, lemma_encode_utf8_concat, lemma_encode_utf8_lacks_ascii,
    lemma_encode_utf8_ascii_char,
};
use crate::text::{
    decimal, decimal_of, lemma_decimal_digits, first_index, lemma_first_index_is,
    lemma_first_index, chars_of, append_chars, string_of_all, string_of, find_char, find_byte,
    byte_range, append_bytes,
};

verus! {

broadcast use vstd::utf8::group_utf8_lib;

/// The header text of an object of type `t` with `n` bytes of content.
pub open spec fn object_header(t: Seq<char>, n: nat) -> Seq<char> {
    t + seq![' '] + decimal(n) + seq!['\0']
}

/// The bytes that name and store an object: its UTF-8 header, then its
/// content.
pub open spec fn object_store(t: Seq<char>, c: Seq<u8>) -> Seq<u8> {
    encode_utf8(object_header(t, c.len())) + c
}

/// An object's name: the lower-case hexadecimal SHA-1 of its stored bytes.
pub open spec fn object_id(store: Seq<u8>) -> Seq<char> {
    hex_lower(sha1_of(store))
}

/// The type in a header: the text before its first space.
pub open spec fn header_type(h: Seq<char>) -> Seq<char> {
    let i = first_index(h, ' ');
    if i < 0 {
        h
    } else {
        h.subrange(0, i)
    }
}

/// The type and content that decompressed object bytes hold, when they have
/// a NUL-terminated UTF-8 header.
pub open spec fn parse_raw_object(raw: Seq<u8>) -> Option<(Seq<char>, Seq<u8>)> {
    let n = first_index(raw, 0u8);
    if n >= 0 && valid_utf8(raw.subrange(0, n)) {
        Some((header_type(decode_utf8(raw.subrange(0, n))), raw.subrange(n + 1, raw.len() as int)))
    } else {
        None
    }
}

/// The type and content an object file gives back, when it can be read.
pub open spec fn read_back(file: Seq<u8>) -> Option<(Seq<char>, Seq<u8>)> {
    match unzlib_of(file) {
        Some(raw) => parse_raw_object(raw),
        None => None,
    }
}

/// The stored bytes of an object of type `obj_type` with `content`.
pub fn encode_object(obj_type: &str, content: &[u8]) -> (store: Vec<u8>)
    ensures
        store@ == object_store(obj_type@, content@),
{
    let mut header = chars_of(obj_type);
    header.push(' ');
    let digits = decimal_of(content.len() as u64);
    append_chars(&mut header, &digits);
    header.push('\0');
    assert(header@ =~= object_header(obj_type@, content@.len()));
    let text = string_of_all(&header);
    let mut store = text.as_str().as_bytes_vec();
    append_bytes(&mut store, content);
    store
}

/// The name of an object of type `obj_type` with `content`: 40 lower-case
/// hexadecimal digits.
pub fn object_hash(obj_type: &str, content: &[u8]) -> (id: String)
    ensures
        id@ == object_id(object_store(obj_type@, content@)),
        id@.len() == 40,
{
    let store = encode_object(obj_type, content);
    let digest = sha1_digest(store.as_slice());
    hex_encode(digest.as_slice())
}

/// An object ready to be written: its name and its compressed bytes.
pub struct PreparedObject {
    pub id: String,
    pub compressed: Vec<u8>,
}

/// Names and compresses an object; this always succeeds.
pub fn prepare_object(obj_type: &str, content: &[u8]) -> (r: Result<PreparedObject, Git5Error>)
    ensures
        r is Ok,
        r matches Ok(p) ==> {
            &&& p.id@ == object_id(object_store(obj_type@, content@))
            &&& p.id@.len() == 40
            &&& p.compressed@ == zlib_of(object_store(obj_type@, content@))
            &&& unzlib_of(p.compressed@) == Some(object_store(obj_type@, content@))
        },
{
    let store = encode_object(obj_type, content);
    let digest = sha1_digest(store.as_slice());
    let id = hex_encode(digest.as_slice());
    match zlib_compress(store.as_slice()) {
        Ok(compressed) => Ok(PreparedObject { id, compressed }),
        Err(e) => Err(Git5Error::from(e)),
    }
}

/// Reads an object file's bytes: decompresses them, splits the header at
/// its NUL and takes the type from it.
pub fn decode_object(file: &[u8]) -> (r: Result<(String, Vec<u8>), Git5Error>)
    ensures
        unzlib_of(file@) is None <==> r matches Err(Git5Error::IoError(_)),
        unzlib_of(file@) matches Some(raw) ==> {
            let n = first_index(raw, 0u8);
            &&& n < 0 ==> (r matches Err(Git5Error::InvalidObject(m)) && m@
                == "Invalid object format"@)
            &&& n >= 0 && !valid_utf8(raw.subrange(0, n)) ==> (r matches Err(
                Git5Error::ParseError(m),
            ) && m@ == "Invalid object header"@)
            &&& parse_raw_object(raw) matches Some((t, c)) ==> (r matches Ok((t2, c2)) && t2@
                == t && c2@ == c)
        },
        r is Ok <==> read_back(file@) is Some,
{
    let raw = match zlib_decompress(file) {
        Ok(raw) => raw,
        Err(e) => {
            return Err(Git5Error::from(e));
        },
    };
    let nul = find_byte(&raw, 0u8, 0, raw.len());
    assert(raw@.subrange(0, raw@.len() as int) =~= raw@);
    if nul == raw.len() {
        return Err(Git5Error::InvalidObject(String::from_str("Invalid object format")));
    }
    let header = byte_range(raw.as_slice(), 0, nul);
    let text = match utf8_strict(header) {
        Some(text) => text,
        None => {
            return Err(Git5Error::ParseError(String::from_str("Invalid object header")));
        },
    };
    let hv = chars_of(text.as_str());
    let sp = find_char(&hv, ' ', 0, hv.len());
    assert(hv@.subrange(0, hv@.len() as int) =~= hv@);
    let obj_type = string_of(&hv, 0, sp);
    proof {
        if sp == hv.len() {
            assert(hv@.subrange(0, sp as int) =~= hv@);
        }
    }
    let content = byte_range(raw.as_slice(), nul + 1, raw.len());
    Ok((obj_type, content))
}

/// Objects read back as written: the stored bytes of a type without space
/// or NUL parse to that type and the content, so a file written by
/// `prepare_object` reads back as the type and content it was given.
pub proof fn lemma_object_roundtrip(t: Seq<char>, c: Seq<u8>)
    requires
        !t.contains(' '),
        !t.contains('\0'),
    ensures
        parse_raw_object(object_store(t, c)) == Some((t, c)),
        forall|file: Seq<u8>|
            unzlib_of(file) == Some(object_store(t, c)) ==> #[trigger] read_back(file) == Some((t, c)),
{
    let d = decimal(c.len());
    lemma_decimal_digits(c.len());
    let pre = t + seq![' '] + d;
    let h = pre + seq!['\0'];
    assert(object_header(t, c.len()) == h);
    lemma_encode_utf8_concat(pre, seq!['\0']);
    lemma_encode_utf8_ascii_char('\0');
    assert forall|i: int| 0 <= i < pre.len() implies (#[trigger] pre[i]) as u32 != 0u8 as u32 by {
        if i < t.len() {
            assert(pre[i] == t[i]);
            if pre[i] as u32 == 0 {
                vstd::utf8::char_u32_cast(pre[i], 0u32);
                vstd::utf8::char_u32_cast('\0', 0u32);
                assert(t[i] == '\0');
                assert(t.contains('\0'));
            }
        } else if i > t.len() {
            assert(pre[i] == d[i - t.len() - 1]);
        }
    }
    lemma_encode_utf8_lacks_ascii(pre, 0u8);
    let ep = encode_utf8(pre);
    let raw = object_store(t, c);
    assert(raw =~= ep + seq![0u8] + c);
    assert forall|j: int| 0 <= j < ep.len() implies raw[j] != 0u8 by {
        assert(raw[j] == ep[j]);
        if ep[j] == 0u8 {
            assert(ep.contains(0u8));
        }
    }
    lemma_first_index_is(raw, 0u8, ep.len() as int);
    assert(raw.subrange(0, ep.len() as int) =~= ep);
    assert(raw.subrange(ep.len() as int + 1, raw.len() as int) =~= c);
    assert(decode_utf8(ep) == pre);
    assert forall|j: int| 0 <= j < t.len() implies pre[j] != ' ' by {
        assert(pre[j] == t[j]);
        if pre[j] == ' ' {
            assert(t.contains(' '));
        }
    }
    lemma_first_index_is(pre, ' ', t.len() as int);
    assert(pre.subrange(0, t.len() as int) =~= t);
}

} // verus!
