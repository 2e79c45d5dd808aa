//! Byte codecs the repository format is built on: hexadecimal, SHA-1, zlib
//! and UTF-8, with what each promises.
use vstd::prelude::*;
use vstd::string::StringSliceAdditionalSpecFns;
use vstd::utf8::{valid_utf8, decode_utf8, encode_utf8, encode_scalar, has_width_1_encoding, has_width_2_encoding, has_width_3_encoding, has_width_4_encoding, leading_byte_width_1, leading_byte_width_2, leading_byte_width_3, leading_byte_width_4, last_continuation_byte, second_last_continuation_byte, third_last_continuation_byte, char_is_scalar};
use sha1::Digest;
use std::io::{Read, Write};

verus! {

#[verifier::external_type_specification]
#[verifier::external_body]
pub struct ExFromHexError(hex::FromHexError);

/// The lower-case hexadecimal digit for `n < 16`.
pub open spec fn hex_digit(n: int) -> char {
    if n < 10 {
        (48 + n) as char
    } else {
        (87 + n) as char
    }
}

/// Lower-case hexadecimal text of bytes: two digits per byte, high first.
pub open spec fn hex_lower(b: Seq<u8>) -> Seq<char> {
    Seq::new(
        2 * b.len(),
        |i: int|
            if i % 2 == 0 {
                hex_digit(b[i / 2] as int / 16)
            } else {
                hex_digit(b[i / 2] as int % 16)
            },
    )
}

/// The value of a hexadecimal digit of either case.
pub open spec fn hex_value(c: char) -> Option<int> {
    if '0' <= c <= '9' {
        Some(c as int - 48)
    } else if 'a' <= c <= 'f' {
        Some(c as int - 87)
    } else if 'A' <= c <= 'F' {
        Some(c as int - 55)
    } else {
        None
    }
}

/// Text that `hex::decode` accepts: an even number of hexadecimal digits.
pub open spec fn hex_valid(s: Seq<char>) -> bool {
    &&& s.len() % 2 == 0
    &&& forall|i: int| 0 <= i < s.len() ==> (#[trigger] hex_value(s[i])) is Some
}

/// The bytes that valid hexadecimal text stands for.
pub open spec fn hex_bytes(s: Seq<char>) -> Seq<u8> {
    Seq::new(
        s.len() / 2,
        |i: int| (16 * hex_value(s[2 * i])->0 + hex_value(s[2 * i + 1])->0) as u8,
    )
}

/// `hex::encode`: the lower-case hexadecimal text of `data`.
#[verifier::external_body]
pub(crate) fn hex_encode(data: &[u8]) -> (s: String)
    ensures
        s@ == hex_lower(data@),
{
    hex::encode(data)
}

/// The text of the error `hex::decode` reports for a string it rejects
/// (the `Display` of its `hex::FromHexError`).
pub uninterp spec fn hex_error_of(s: Seq<char>) -> Seq<char>;

/// `hex::decode`, its error shown as text: succeeds exactly on an even
/// number of hexadecimal digits (either case) and then gives the bytes they
/// stand for; otherwise the text of its error, `hex_error_of(s)`, which is
/// `Odd number of digits` when the string has an odd number of bytes.
#[verifier::external_body]
pub(crate) fn hex_decode(s: &str) -> (r: Result<Vec<u8>, String>)
    ensures
        r is Ok <==> hex_valid(s@),
        r matches Ok(v) ==> v@ == hex_bytes(s@),
        r matches Err(m) ==> m@ == hex_error_of(s@) && (s.spec_bytes().len() % 2 == 1 ==> m@
            == "Odd number of digits"@),
{
    match hex::decode(s) {
        Ok(v) => Ok(v),
        Err(e) => Err(e.to_string()),
    }
}

/// The message of a `hex::FromHexError` (its `Display`); the text is not
/// stated here.
#[verifier::external_body]
pub(crate) fn hex_error_text(e: &hex::FromHexError) -> String {
    e.to_string()
}

/// The SHA-1 digest of a byte sequence.
pub uninterp spec fn sha1_of(data: Seq<u8>) -> Seq<u8>;

/// `sha1::Sha1::digest`: the 20-byte SHA-1 digest of `data`.
#[verifier::external_body]
pub(crate) fn sha1_digest(data: &[u8]) -> (d: Vec<u8>)
    ensures
        d@ == sha1_of(data@),
        d@.len() == 20,
{
    sha1::Sha1::digest(data).to_vec()
}

/// The zlib stream (default level) that flate2 writes for some bytes.
pub uninterp spec fn zlib_of(data: Seq<u8>) -> Seq<u8>;

/// What flate2 reads out of a zlib stream: the bytes, or `None` when it
/// reports an error.
pub uninterp spec fn unzlib_of(data: Seq<u8>) -> Option<Seq<u8>>;

/// `flate2::write::ZlibEncoder` at the default level, written to a vector
/// and finished. It succeeds (writes into a vector cannot fail, and the
/// compressor reports no error when driven this way), giving `zlib_of(data)`;
/// zlib being lossless, reading it back gives `data`.
#[verifier::external_body]
pub(crate) fn zlib_compress(data: &[u8]) -> (r: Result<Vec<u8>, std::io::Error>)
    ensures
        r is Ok,
        r matches Ok(v) ==> v@ == zlib_of(data@),
        r matches Ok(v) ==> unzlib_of(v@) == Some(data@),
{
    let mut encoder = flate2::write::ZlibEncoder::new(Vec::new(), flate2::Compression::default());
    encoder.write_all(data)?;
    encoder.finish()
}

/// `flate2::read::ZlibDecoder` read to the end: `Ok` exactly when
/// `unzlib_of` gives bytes, and then those bytes.
#[verifier::external_body]
pub(crate) fn zlib_decompress(data: &[u8]) -> (r: Result<Vec<u8>, std::io::Error>)
    ensures
        r is Ok <==> unzlib_of(data@) is Some,
        r matches Ok(v) ==> unzlib_of(data@) == Some(v@),
{
    let mut decoder = flate2::read::ZlibDecoder::new(data);
    let mut raw = Vec::new();
    decoder.read_to_end(&mut raw)?;
    Ok(raw)
}

/// The text `String::from_utf8_lossy` makes of bytes.
pub uninterp spec fn lossy_of(b: Seq<u8>) -> Seq<char>;

/// Text read leniently from bytes: valid UTF-8 decoded as it is, anything
/// else as `String::from_utf8_lossy` makes it.
pub open spec fn lenient_utf8(b: Seq<u8>) -> Seq<char> {
    if valid_utf8(b) {
        decode_utf8(b)
    } else {
        lossy_of(b)
    }
}

/// `String::from_utf8_lossy`: invalid sequences become U+FFFD; valid UTF-8
/// is decoded unchanged.
#[verifier::external_body]
pub(crate) fn utf8_lossy(b: &[u8]) -> (s: String)
    ensures
        s@ == lossy_of(b@),
        s@ == lenient_utf8(b@),
{
    String::from_utf8_lossy(b).into_owned()
}

/// `String::from_utf8`: the decoded text exactly when the bytes are valid
/// UTF-8.
#[verifier::external_body]
pub(crate) fn utf8_strict(b: Vec<u8>) -> (r: Option<String>)
    ensures
        r is Some <==> valid_utf8(b@),
        r matches Some(s) ==> s@ == decode_utf8(b@),
{
    String::from_utf8(b).ok()
}

/// UTF-8 encoding distributes over concatenation.
pub proof fn lemma_encode_utf8_concat(a: Seq<char>, b: Seq<char>)
    ensures
        encode_utf8(a + b) == encode_utf8(a) + encode_utf8(b),
    decreases a.len(),
{
    if a.len() == 0 {
        assert(a + b =~= b);
        assert(encode_utf8(a) + encode_utf8(b) =~= encode_utf8(b));
    } else {
        assert((a + b).drop_first() =~= a.drop_first() + b);
        assert((a + b)[0] == a[0]);
        lemma_encode_utf8_concat(a.drop_first(), b);
        assert(encode_utf8(a + b) =~= encode_utf8(a) + encode_utf8(b));
    }
}

/// An ASCII byte occurs in the encoding of a character only when the
/// character is that ASCII character.
pub proof fn lemma_encode_scalar_ascii(c: char, b: u8)
    requires
        b < 128,
        encode_scalar(c as u32).contains(b),
    ensures
        c as u32 == b as u32,
{
    let v = c as u32;
    char_is_scalar(c);
    let e = encode_scalar(v);
    let k = choose|k: int| 0 <= k < e.len() && e[k] == b;
    if has_width_1_encoding(v) {
        assert(v <= 0x7F ==> (v & 0x7F) as u8 as u32 == v) by (bit_vector);
    } else {
        assert(forall|x: u32| (#[trigger] (0xC0 | ((x >> 6) & 0x1F) as u8)) >= 0x80) by (bit_vector);
        assert(forall|x: u32| (#[trigger] (0xE0 | ((x >> 12) & 0x0F) as u8)) >= 0x80) by (bit_vector);
        assert(forall|x: u32| (#[trigger] (0xF0 | ((x >> 18) & 0x7) as u8)) >= 0x80) by (bit_vector);
        assert(forall|x: u32| (#[trigger] (0x80 | (x & 0x3F) as u8)) >= 0x80) by (bit_vector);
        assert(forall|x: u32| (#[trigger] (0x80 | ((x >> 6) & 0x3F) as u8)) >= 0x80) by (bit_vector);
        assert(forall|x: u32| (#[trigger] (0x80 | ((x >> 12) & 0x3F) as u8)) >= 0x80) by (bit_vector);
        assert(leading_byte_width_2(v) >= 0x80);
        assert(leading_byte_width_3(v) >= 0x80);
        assert(leading_byte_width_4(v) >= 0x80);
        assert(last_continuation_byte(v) >= 0x80);
        assert(second_last_continuation_byte(v) >= 0x80);
        assert(third_last_continuation_byte(v) >= 0x80);
        assert(e[k] >= 0x80);
    }
}

/// The encoding of text that lacks an ASCII character lacks its byte.
pub proof fn lemma_encode_utf8_lacks_ascii(s: Seq<char>, b: u8)
    requires
        b < 128,
        forall|i: int| 0 <= i < s.len() ==> (#[trigger] s[i]) as u32 != b as u32,
    ensures
        !encode_utf8(s).contains(b),
    decreases s.len(),
{
    if s.len() > 0 {
        assert forall|i: int| 0 <= i < s.drop_first().len() implies (#[trigger] s.drop_first()[i]) as u32 != b as u32 by {
            assert(s.drop_first()[i] == s[i + 1]);
        }
        lemma_encode_utf8_lacks_ascii(s.drop_first(), b);
        let e0 = encode_scalar(s[0] as u32);
        let rest = encode_utf8(s.drop_first());
        if encode_utf8(s).contains(b) {
            let k = choose|k: int| 0 <= k < encode_utf8(s).len() && encode_utf8(s)[k] == b;
            if k < e0.len() {
                assert(e0[k] == b);
                lemma_encode_scalar_ascii(s[0], b);
            } else {
                assert(rest[k - e0.len()] == b);
            }
        }
    }
}

/// ASCII text encodes byte for byte.
pub proof fn lemma_encode_utf8_ascii_char(c: char)
    requires
        (c as u32) < 128,
    ensures
        encode_utf8(seq![c]) == seq![c as u32 as u8],
{
    let v = c as u32;
    assert(v <= 0x7F ==> (v & 0x7F) as u8 == v as u8) by (bit_vector);
    assert(seq![c].drop_first() =~= Seq::<char>::empty());
    assert(seq![c][0] == c);
    assert(encode_utf8(Seq::<char>::empty()) =~= Seq::<u8>::empty());
    assert(has_width_1_encoding(v));
    assert(encode_scalar(v) == seq![leading_byte_width_1(v)]);
    assert(encode_utf8(seq![c]) == encode_scalar(v) + encode_utf8(Seq::<char>::empty()));
    assert(encode_utf8(seq![c]) =~= seq![c as u32 as u8]);
}

/// A lower-case hexadecimal digit.
pub open spec fn is_lower_hex_digit(c: char) -> bool {
    ('0' <= c <= '9') || ('a' <= c <= 'f')
}

/// Lower-case hexadecimal text of even length.
pub open spec fn is_lower_hex(s: Seq<char>) -> bool {
    &&& s.len() % 2 == 0
    &&& forall|i: int| 0 <= i < s.len() ==> is_lower_hex_digit(#[trigger] s[i])
}

proof fn lemma_hex_digit_of_value(c: char)
    requires
        is_lower_hex_digit(c),
    ensures
        hex_value(c) is Some,
        0 <= hex_value(c)->0 < 16,
        hex_digit(hex_value(c)->0) == c,
{
    vstd::utf8::char_u32_cast(c, c as u32);
    if '0' <= c <= '9' {
        assert(hex_digit(hex_value(c)->0) == ((c as int) as char));
    } else {
        assert(hex_digit(hex_value(c)->0) == ((c as int) as char));
    }
}

/// Lower-case hexadecimal text decodes and encodes back to itself.
pub proof fn lemma_hex_roundtrip(s: Seq<char>)
    requires
        is_lower_hex(s),
    ensures
        hex_valid(s),
        hex_lower(hex_bytes(s)) == s,
        hex_bytes(s).len() == s.len() / 2,
{
    assert forall|i: int| 0 <= i < s.len() implies (#[trigger] hex_value(s[i])) is Some by {
        lemma_hex_digit_of_value(s[i]);
    }
    let b = hex_bytes(s);
    assert forall|i: int| 0 <= i < s.len() implies #[trigger] hex_lower(b)[i] == s[i] by {
        let q = i / 2;
        lemma_hex_digit_of_value(s[2 * q]);
        lemma_hex_digit_of_value(s[2 * q + 1]);
        let h = hex_value(s[2 * q])->0;
        let l = hex_value(s[2 * q + 1])->0;
        assert(0 <= 16 * h + l < 256);
        assert(b[q] as int == 16 * h + l);
        assert((16 * h + l) / 16 == h && (16 * h + l) % 16 == l) by (nonlinear_arith)
            requires
                0 <= h < 16,
                0 <= l < 16,
        ;
        if i % 2 == 0 {
            assert(i == 2 * q);
        } else {
            assert(i == 2 * q + 1);
        }
    }
    assert(hex_lower(b) =~= s);
}

} // verus!
