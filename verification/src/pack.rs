//! Pack files: a `PACK` header, a version and a count, then entries each
//! made of a type-and-size header and a zlib stream.
use vstd::prelude::*;
use vstd::string::*;
use crate::error::Git5Error;
use crate::codec::{zlib_of, unzlib_of};
use crate::object::{PreparedObject, prepare_object, object_id, object_store};
use crate::text::{decimal, decimal_of, append_str, append_chars, string_of_all};
use crate::inflater::{Inflater, inflate_calls};

verus! {

broadcast use vstd::string::group_string_axioms;

/// What one call of the inflater reported.
pub enum InflateStatus {
    Progress,
    BufError,
    StreamEnd,
    /// The stream is corrupt; the text describes the error.
    Failed(String),
}

/// What one `decompress` call (no flushing) of a fresh zlib inflater
/// (`flate2::Decompress::new(true)`) does with `input` and an output buffer
/// of `out_len` zero bytes: the status code (0 `Ok`, 1 `BufError`, 2
/// `StreamEnd`, 3 an error), the buffer afterwards, the input it consumed
/// (`total_in`), and the error's debug text (empty when there is none).
pub uninterp spec fn inflate_of(input: Seq<u8>, out_len: nat) -> (u8, Seq<u8>, nat, Seq<char>);

/// The debug text a status carries.
pub open spec fn status_text(s: InflateStatus) -> Seq<char> {
    match s {
        InflateStatus::Failed(m) => m@,
        _ => Seq::empty(),
    }
}

/// A fresh `flate2::Decompress::new(true)`, one `decompress` call on `input`
/// into `out_len` zero bytes, and its `total_in`: what `inflate_of` names.
/// The buffer keeps its length.
#[verifier::external_body]
fn inflate_fresh(input: &[u8], out_len: usize) -> (r: (InflateStatus, Vec<u8>, u64))
    ensures
        inflate_of(input@, out_len as nat) == (status_code(r.0), r.1@, r.2 as nat, status_text(r.0)),
        r.1@.len() == out_len,
{
    let mut d = flate2::Decompress::new(true);
    let mut out = vec![0u8; out_len];
    let status = match d.decompress(input, &mut out, flate2::FlushDecompress::None) {
        Ok(flate2::Status::Ok) => InflateStatus::Progress,
        Ok(flate2::Status::BufError) => InflateStatus::BufError,
        Ok(flate2::Status::StreamEnd) => InflateStatus::StreamEnd,
        Err(e) => InflateStatus::Failed(format!("{:?}", e)),
    };
    (status, out, d.total_in())
}

/// A big-endian 32-bit number at `i`.
pub open spec fn be_u32(b: Seq<u8>, i: int) -> int {
    b[i] as int * 0x1000000 + b[i + 1] as int * 0x10000 + b[i + 2] as int * 0x100 + b[i + 3] as int
}

/// The error a pack's header gives, if any: too short (under 32 bytes), a
/// wrong magic, or a version other than 2.
pub open spec fn pack_header_ok(data: Seq<u8>) -> bool {
    &&& data.len() >= 32
    &&& data.subrange(0, 4) == seq![80u8, 65u8, 67u8, 75u8]
    &&& be_u32(data, 4) == 2
}

/// Reads a pack's header: the number of entries it announces.
pub fn parse_pack_header(data: &[u8]) -> (r: Result<u32, Git5Error>)
    ensures
        data@.len() < 32 ==> (r matches Err(Git5Error::InvalidObject(m)) && m@ == "Packfile is too small"@),
        data@.len() >= 32 && data@.subrange(0, 4) != seq![80u8, 65u8, 67u8, 75u8] ==> (r matches Err(
            Git5Error::InvalidObject(m),
        ) && m@ == "Invalid packfile magic"@),
        data@.len() >= 32 && data@.subrange(0, 4) == seq![80u8, 65u8, 67u8, 75u8] && be_u32(data@, 4)
            != 2 ==> (r matches Err(Git5Error::InvalidObject(m)) && m@ == "Unsupported pack version: "@
            + decimal(be_u32(data@, 4) as nat)),
        r is Ok <==> pack_header_ok(data@),
        r matches Ok(n) ==> n == be_u32(data@, 8),
{
    if data.len() < 32 {
        return Err(Git5Error::InvalidObject(String::from_str("Packfile is too small")));
    }
    if !(data[0] == 80u8 && data[1] == 65u8 && data[2] == 67u8 && data[3] == 75u8) {
        proof {
            if data@.subrange(0, 4) == seq![80u8, 65u8, 67u8, 75u8] {
                assert(data@.subrange(0, 4)[1] == data@[1]);
                assert(data@.subrange(0, 4)[2] == data@[2]);
                assert(data@.subrange(0, 4)[3] == data@[3]);
                assert(data@.subrange(0, 4)[0] == data@[0]);
            }
        }
        return Err(Git5Error::InvalidObject(String::from_str("Invalid packfile magic")));
    }
    assert(data@.subrange(0, 4) =~= seq![80u8, 65u8, 67u8, 75u8]);
    let version: u32 = (data[4] as u32) * 0x1000000 + (data[5] as u32) * 0x10000 + (data[6] as u32)
        * 0x100 + (data[7] as u32);
    if version != 2 {
        let mut m: Vec<char> = Vec::new();
        append_str(&mut m, "Unsupported pack version: ");
        let digits = decimal_of(version as u64);
        append_chars(&mut m, &digits);
        return Err(Git5Error::InvalidObject(string_of_all(&m)));
    }
    let count: u32 = (data[8] as u32) * 0x1000000 + (data[9] as u32) * 0x10000 + (data[10] as u32)
        * 0x100 + (data[11] as u32);
    Ok(count)
}

/// The rest of an entry's size after a header byte with the continuation
/// bit: each byte adds its low 7 bits shifted left by `shift` (which grows
/// by 7), until a byte without the continuation bit. `None` when the bytes
/// run out or the shift reaches the width of `usize` (both panic when the
/// bytes are read by index with checked shifts).
pub open spec fn size_continue(data: Seq<u8>, p: int, size: usize, shift: u32) -> Option<(usize, int)>
    decreases data.len() - p,
{
    if p < 0 || p >= data.len() || shift >= usize::BITS {
        None
    } else {
        let b = data[p];
        let s2 = size | (((b & 0x7fu8) as usize) << shift);
        if b & 0x80u8 != 0 {
            size_continue(data, p + 1, s2, (shift + 7) as u32)
        } else {
            Some((s2, p + 1))
        }
    }
}

/// The header of the entry at `pos`: its type (bits 4 to 6 of the first
/// byte), its size (the low 4 bits, then 7 more bits per continuation byte)
/// and where its data starts.
pub open spec fn entry_header(data: Seq<u8>, pos: int) -> Option<(u8, usize, int)> {
    if pos < 0 || pos >= data.len() {
        None
    } else {
        let b = data[pos];
        let t = (b >> 4u8) & 7u8;
        let s0 = (b & 15u8) as usize;
        if b & 0x80u8 != 0 {
            match size_continue(data, pos + 1, s0, 4) {
                Some((s, n)) => Some((t, s, n)),
                None => None,
            }
        } else {
            Some((t, s0, pos + 1))
        }
    }
}

/// Reads the header of the entry at `pos`.
pub fn pack_entry_header(data: &[u8], pos: usize) -> (r: Option<(u8, usize, usize)>)
    ensures
        r is Some <==> entry_header(data@, pos as int) is Some,
        r matches Some((t, s, n)) ==> entry_header(data@, pos as int) == Some((t, s, n as int)),
{
    if pos >= data.len() {
        return None;
    }
    let b0 = data[pos];
    let t = (b0 >> 4u8) & 7u8;
    let s0 = (b0 & 15u8) as usize;
    if b0 & 0x80u8 == 0 {
        return Some((t, s0, pos + 1));
    }
    let mut size = s0;
    let mut shift: u32 = 4;
    let mut p = pos + 1;
    while p < data.len()
        invariant
            pos < p <= data@.len(),
            shift < 0x1000_0000,
            entry_header(data@, pos as int) == match size_continue(data@, p as int, size, shift) {
                Some((s, n)) => Some((t, s, n)),
                None => None,
            },
        decreases data@.len() - p,
    {
        if shift >= usize::BITS {
            return None;
        }
        let b = data[p];
        size = size | (((b & 0x7fu8) as usize) << shift);
        if b & 0x80u8 == 0 {
            return Some((t, size, p + 1));
        }
        shift = shift + 7;
        p = p + 1;
    }
    None
}

/// The rest of a delta's base offset after a byte with the continuation
/// bit; `None` when the offset would overflow or the bytes run out.
pub open spec fn offset_continue(data: Seq<u8>, p: int, offset: usize) -> Option<int>
    decreases data.len() - p,
{
    if offset == usize::MAX || p < 0 || p >= data.len() {
        None
    } else {
        let b = data[p];
        let o2 = (((offset + 1) as usize) << 7usize) | ((b & 0x7fu8) as usize);
        if b & 0x80u8 != 0 {
            offset_continue(data, p + 1, o2)
        } else {
            Some(p + 1)
        }
    }
}

/// Where the data of an offset delta starts, after its base offset at `pos`.
pub open spec fn offset_end(data: Seq<u8>, pos: int) -> Option<int> {
    if pos < 0 || pos >= data.len() {
        None
    } else {
        let b = data[pos];
        if b & 0x80u8 != 0 {
            offset_continue(data, pos + 1, (b & 0x7fu8) as usize)
        } else {
            Some(pos + 1)
        }
    }
}

/// Skips an offset delta's base offset at `pos`.
pub fn skip_delta_offset(data: &[u8], pos: usize) -> (r: Option<usize>)
    ensures
        r is Some <==> offset_end(data@, pos as int) is Some,
        r matches Some(n) ==> offset_end(data@, pos as int) == Some(n as int),
{
    if pos >= data.len() {
        return None;
    }
    let b0 = data[pos];
    if b0 & 0x80u8 == 0 {
        return Some(pos + 1);
    }
    let mut offset = (b0 & 0x7fu8) as usize;
    let mut p = pos + 1;
    while p < data.len()
        invariant
            pos < p <= data@.len(),
            offset_end(data@, pos as int) == offset_continue(data@, p as int, offset),
        decreases data@.len() - p,
    {
        if offset == usize::MAX {
            return None;
        }
        let b = data[p];
        offset = ((offset + 1) << 7usize) | ((b & 0x7fu8) as usize);
        if b & 0x80u8 == 0 {
            return Some(p + 1);
        }
        p = p + 1;
    }
    if offset == usize::MAX {
        return None;
    }
    None
}

/// The object type a pack entry type stands for.
pub open spec fn pack_type_name(t: u8) -> Option<Seq<char>> {
    if t == 1 {
        Some("commit"@)
    } else if t == 2 {
        Some("tree"@)
    } else if t == 3 {
        Some("blob"@)
    } else if t == 4 {
        Some("tag"@)
    } else {
        None
    }
}

/// The object types in the order the pack format numbers them, from 1.
pub open spec fn numbered_object_types() -> Seq<Seq<char>> {
    seq!["commit"@, "tree"@, "blob"@, "tag"@]
}

/// The pack format numbers the object types: 1 is a commit, 2 a tree, 3 a
/// blob and 4 a tag; no other type number names an object type.
pub proof fn lemma_pack_type_numbers(t: u8)
    ensures
        1 <= t <= 4 ==> pack_type_name(t) == Some(numbered_object_types()[t - 1]),
        !(1 <= t <= 4) ==> pack_type_name(t) is None,
        pack_type_name(1) == Some("commit"@),
        pack_type_name(2) == Some("tree"@),
        pack_type_name(3) == Some("blob"@),
        pack_type_name(4) == Some("tag"@),
{
}

fn entry_type_name(t: u8) -> (r: Option<&'static str>)
    ensures
        r is Some <==> pack_type_name(t) is Some,
        r matches Some(s) ==> s@ == pack_type_name(t)->0,
{
    if t == 1 {
        Some("commit")
    } else if t == 2 {
        Some("tree")
    } else if t == 3 {
        Some("blob")
    } else if t == 4 {
        Some("tag")
    } else {
        None
    }
}

/// Where the data after a skipped stream starts, given the input the
/// inflater reports it consumed from `pos` on: `None` when that lies past
/// the data.
pub fn stream_end(data_len: usize, pos: usize, used: u64) -> (r: Option<usize>)
    requires
        pos <= data_len,
    ensures
        used <= data_len - pos ==> r == Some((pos + used) as usize),
        used > data_len - pos ==> r is None,
{
    if used > (data_len - pos) as u64 {
        None
    } else {
        Some(pos + used as usize)
    }
}

/// How much input a fresh inflater, given `input` and a 4096-byte buffer at
/// every call, reports consumed once a call after the `k`-th does not
/// report progress: the `total_in` of the first such call, or `None` when
/// none comes before the call numbered 2^64 - 1.
pub open spec fn skipped_input(input: Seq<u8>, k: nat) -> Option<nat>
    decreases u64::MAX - k,
{
    if k >= u64::MAX {
        None
    } else {
        let (code, total) = inflate_calls(input, 4096, k + 1);
        if code != 0 {
            Some(total)
        } else {
            skipped_input(input, k + 1)
        }
    }
}

/// Where the data after the zlib stream at `pos` starts, once it is skipped:
/// `pos` plus the input skipping consumed, when that lies within the data.
pub open spec fn skip_to(data: Seq<u8>, pos: int) -> Option<int> {
    match skipped_input(data.skip(pos), 0) {
        Some(t) => if t <= data.len() - pos {
            Some(pos + t)
        } else {
            None
        },
        None => None,
    }
}

/// Inflates and discards the zlib stream at `pos`, calling one inflater
/// with the whole rest of the data and a 4096-byte buffer until it reports
/// the end, a buffer error or a failure; gives where the data after the
/// consumed input starts (`skip_to`).
fn skip_stream(data: &[u8], pos: usize) -> (r: Option<usize>)
    requires
        pos <= data@.len(),
    ensures
        r matches Some(n) ==> skip_to(data@, pos as int) == Some(n as int),
        r is None ==> skip_to(data@, pos as int) is None,
{
    let (_, rest) = data.split_at(pos);
    assert(rest@ == data@.skip(pos as int));
    let mut inf = Inflater::start(rest, 4096);
    let mut output: Vec<u8> = vec![0u8; 4096];
    let mut calls: u64 = 0;
    while calls < u64::MAX
        invariant
            inf.input() == rest@,
            inf.out_len() == 4096,
            inf.calls() == calls,
            output@.len() == 4096,
            rest@ == data@.skip(pos as int),
            pos <= data@.len(),
            skipped_input(rest@, 0) == skipped_input(rest@, calls as nat),
        decreases u64::MAX - calls,
    {
        let (status, total) = inf.call(rest, &mut output);
        calls = calls + 1;
        match status {
            InflateStatus::Progress => {},
            _ => {
                return stream_end(data.len(), pos, total);
            },
        }
    }
    None
}

/// An object unpacked from a pack, ready to be written.
pub struct UnpackedObject {
    pub object: PreparedObject,
    /// The inflater did not report the end of the stream for it.
    pub warning: bool,
}

/// How unpacking ended.
pub enum UnpackEnd {
    /// Every announced entry was read.
    Complete,
    /// An entry of unknown type, or a failure to inflate or compress.
    Failed(Git5Error),
    /// The data ran out inside an entry's header, or a number in it
    /// overflowed.
    Malformed,
}

/// What unpacking produced: the objects in order, how many deltas were
/// skipped, and how it ended.
pub struct UnpackReport {
    pub objects: Vec<UnpackedObject>,
    pub deltas: usize,
    pub end: UnpackEnd,
}

/// Why unpacking stopped early.
pub enum StopKind {
    /// An entry's header or delta offset is cut short or overflows, a
    /// stream cannot be skipped, or the input consumed lies past the data.
    Malformed,
    /// An entry of this type number, which names no object type.
    UnknownType(u8),
    /// The inflater failed on an object, with this text.
    InflateFailed(Seq<char>),
}

/// Where unpacking stands: the position of the next entry, the objects
/// read (type, content, whether the inflater did not report the end), the
/// deltas skipped, and why it stopped, if it did.
pub struct PackState {
    pub pos: int,
    pub objects: Seq<(Seq<char>, Seq<u8>, bool)>,
    pub deltas: nat,
    pub stop: Option<StopKind>,
}

/// `st` stopped for `k`.
pub open spec fn stopped(st: PackState, k: StopKind) -> PackState {
    PackState { stop: Some(k), ..st }
}

/// Reading the entry at `st.pos`. Offset deltas (type 6) skip their base
/// offset and stream, reference deltas (type 7) their 20-byte base id and
/// stream, each stream as `skip_to` says; types 1 to 4 become
/// objects whose content is what the inflater wrote, with the input it
/// consumed skipped; a failure of the inflater counts only for a non-empty
/// object, and so does the warning.
pub open spec fn pack_step(data: Seq<u8>, st: PackState) -> PackState {
    if st.stop is Some {
        st
    } else {
        match entry_header(data, st.pos) {
            None => stopped(st, StopKind::Malformed),
            Some((t, size, start)) => if t == 6 {
                match offset_end(data, start) {
                    None => stopped(st, StopKind::Malformed),
                    Some(a) => match skip_to(data, a) {
                        None => stopped(st, StopKind::Malformed),
                        Some(p) => PackState { pos: p, deltas: st.deltas + 1, ..st },
                    },
                }
            } else if t == 7 {
                if start + 20 > data.len() {
                    stopped(st, StopKind::Malformed)
                } else {
                    match skip_to(data, start + 20) {
                        None => stopped(st, StopKind::Malformed),
                        Some(p) => PackState { pos: p, deltas: st.deltas + 1, ..st },
                    }
                }
            } else {
                match pack_type_name(t) {
                    None => stopped(st, StopKind::UnknownType(t)),
                    Some(name) => {
                        let (code, out, used, text) = inflate_of(data.skip(start), size as nat);
                        if size > 0 && code == 3 {
                            stopped(st, StopKind::InflateFailed(text))
                        } else if used > data.len() - start {
                            stopped(st, StopKind::Malformed)
                        } else {
                            PackState {
                                pos: start + used,
                                objects: st.objects.push((name, out, size > 0 && code == 0)),
                                ..st
                            }
                        }
                    },
                }
            },
        }
    }
}

/// The state after reading `n` entries, in order, from just after the
/// 12-byte header (once reading stops, further steps change nothing).
pub open spec fn pack_run(data: Seq<u8>, n: nat) -> PackState
    decreases n,
{
    if n == 0 {
        PackState { pos: 12, objects: Seq::empty(), deltas: 0, stop: None }
    } else {
        pack_step(data, pack_run(data, (n - 1) as nat))
    }
}

/// Once reading has stopped, later steps leave the state as it is.
proof fn lemma_pack_run_stays(data: Seq<u8>, k: nat, m: nat)
    requires
        pack_run(data, k).stop is Some,
        k <= m,
    ensures
        pack_run(data, m) == pack_run(data, k),
    decreases m - k,
{
    if m > k {
        lemma_pack_run_stays(data, k, (m - 1) as nat);
    }
}

/// An unpacked object is the loose object of type `o.0` and content `o.1`,
/// with the warning `o.2`.
pub open spec fn object_is(u: UnpackedObject, o: (Seq<char>, Seq<u8>, bool)) -> bool {
    &&& u.object.id@ == object_id(object_store(o.0, o.1))
    &&& u.object.compressed@ == zlib_of(object_store(o.0, o.1))
    &&& unzlib_of(u.object.compressed@) == Some(object_store(o.0, o.1))
    &&& u.warning == o.2
}

/// A report gives what the state holds: its objects, its deltas, and how it
/// ended (complete when it did not stop).
pub open spec fn report_is(r: UnpackReport, st: PackState) -> bool {
    &&& r.objects@.len() == st.objects.len()
    &&& forall|k: int| 0 <= k < r.objects@.len() ==> object_is(#[trigger] r.objects@[k], st.objects[k])
    &&& r.deltas == st.deltas
    &&& match st.stop {
        None => r.end is Complete,
        Some(StopKind::Malformed) => r.end is Malformed,
        Some(StopKind::UnknownType(t)) => r.end matches UnpackEnd::Failed(Git5Error::InvalidObject(m))
            && m@ == "Unknown object type "@ + decimal(t as nat),
        Some(StopKind::InflateFailed(text)) => r.end matches UnpackEnd::Failed(Git5Error::IoError(m))
            && m@ == "Decompression failed: "@ + text,
    }
}

/// The code of an inflater status.
pub open spec fn status_code(s: InflateStatus) -> u8 {
    match s {
        InflateStatus::Progress => 0,
        InflateStatus::BufError => 1,
        InflateStatus::StreamEnd => 2,
        InflateStatus::Failed(_) => 3,
    }
}

proof fn lemma_pack_run_push(data: Seq<u8>, n: nat)
    ensures
        pack_run(data, n + 1) == pack_step(data, pack_run(data, n)),
{
}

/// Unpacks the `count` entries that follow a pack's 12-byte header: reads
/// them in order as `pack_step` describes, until all are read or one stops
/// the reading.
pub fn unpack_pack(data: &[u8], count: u32) -> (r: UnpackReport)
    ensures
        report_is(r, pack_run(data@, count as nat)),
{
    let mut objects: Vec<UnpackedObject> = Vec::new();
    let mut deltas: usize = 0;
    let mut pos: usize = 12;
    let mut n: u32 = 0;
    let ghost mut es: nat = 0;
    while n < count
        invariant
            n <= count,
            es == n,
            pack_run(data@, es).stop is None,
            pack_run(data@, es).pos == pos,
            pack_run(data@, es).deltas == deltas,
            objects@.len() == pack_run(data@, es).objects.len(),
            forall|k: int| 0 <= k < objects@.len() ==> object_is(#[trigger] objects@[k], pack_run(data@, es).objects[k]),
            pos <= data@.len() || n == 0,
            deltas <= n,
        decreases count - n,
    {
        let ghost st = pack_run(data@, es);
        let (t, size, start) = match pack_entry_header(data, pos) {
            Some(h) => h,
            None => {
                proof {
                    lemma_pack_run_push(data@, es);
                }
                let r = UnpackReport { objects, deltas, end: UnpackEnd::Malformed };
                assert(report_is(r, pack_run(data@, es + 1)));
                proof {
                    lemma_pack_run_stays(data@, es + 1, count as nat);
                }
                return r;
            },
        };
        proof {
            assert(start <= data@.len()) by {
                lemma_entry_header_within(data@, pos as int);
            }
        }
        if t == 6 {
            let after = match skip_delta_offset(data, start) {
                Some(a) => a,
                None => {
                    proof {
                        lemma_pack_run_push(data@, es);
                    }
                    let r = UnpackReport { objects, deltas, end: UnpackEnd::Malformed };
                    assert(report_is(r, pack_run(data@, es + 1)));
                    proof {
                        lemma_pack_run_stays(data@, es + 1, count as nat);
                    }
                    return r;
                },
            };
            proof {
                lemma_offset_end_within(data@, start as int);
            }
            match skip_stream(data, after) {
                Some(p) => {
                    proof {
                        lemma_pack_run_push(data@, es);
                        es = es + 1;
                    }
                    pos = p;
                },
                None => {
                    proof {
                        lemma_pack_run_push(data@, es);
                    }
                    let r = UnpackReport { objects, deltas, end: UnpackEnd::Malformed };
                    assert(report_is(r, pack_run(data@, es + 1)));
                    proof {
                        lemma_pack_run_stays(data@, es + 1, count as nat);
                    }
                    return r;
                },
            };
            deltas = deltas + 1;
            n = n + 1;
            continue;
        }
        if t == 7 {
            if data.len() - start < 20 {
                proof {
                    lemma_pack_run_push(data@, es);
                }
                let r = UnpackReport { objects, deltas, end: UnpackEnd::Malformed };
                assert(report_is(r, pack_run(data@, es + 1)));
                proof {
                    lemma_pack_run_stays(data@, es + 1, count as nat);
                }
                return r;
            }
            match skip_stream(data, start + 20) {
                Some(p) => {
                    proof {
                        lemma_pack_run_push(data@, es);
                        es = es + 1;
                    }
                    pos = p;
                },
                None => {
                    proof {
                        lemma_pack_run_push(data@, es);
                    }
                    let r = UnpackReport { objects, deltas, end: UnpackEnd::Malformed };
                    assert(report_is(r, pack_run(data@, es + 1)));
                    proof {
                        lemma_pack_run_stays(data@, es + 1, count as nat);
                    }
                    return r;
                },
            };
            deltas = deltas + 1;
            n = n + 1;
            continue;
        }
        let name = match entry_type_name(t) {
            Some(s) => s,
            None => {
                let mut m: Vec<char> = Vec::new();
                append_str(&mut m, "Unknown object type ");
                let digits = decimal_of(t as u64);
                append_chars(&mut m, &digits);
                proof {
                    lemma_pack_run_push(data@, es);
                }
                let r = UnpackReport {
                    objects,
                    deltas,
                    end: UnpackEnd::Failed(Git5Error::InvalidObject(string_of_all(&m))),
                };
                assert(report_is(r, pack_run(data@, es + 1)));
                proof {
                    lemma_pack_run_stays(data@, es + 1, count as nat);
                }
                return r;
            },
        };
        let (_, rest) = data.split_at(start);
        let (status, output, used) = inflate_fresh(rest, size);
        proof {
            lemma_pack_run_push(data@, es);
            assert(rest@ == data@.skip(start as int));
        }
        let mut warning = false;
        if size > 0 {
            match status {
                InflateStatus::Failed(msg) => {
                    let mut m: Vec<char> = Vec::new();
                    append_str(&mut m, "Decompression failed: ");
                    append_str(&mut m, msg.as_str());
                    let r = UnpackReport {
                        objects,
                        deltas,
                        end: UnpackEnd::Failed(Git5Error::IoError(string_of_all(&m))),
                    };
                    assert(report_is(r, pack_run(data@, es + 1)));
                    proof {
                        lemma_pack_run_stays(data@, es + 1, count as nat);
                    }
                    return r;
                },
                InflateStatus::StreamEnd => {},
                InflateStatus::BufError => {},
                InflateStatus::Progress => {
                    warning = true;
                },
            }
        }
        if used > (data.len() - start) as u64 {
            let r = UnpackReport { objects, deltas, end: UnpackEnd::Malformed };
            assert(report_is(r, pack_run(data@, es + 1)));
            proof {
                lemma_pack_run_stays(data@, es + 1, count as nat);
            }
            return r;
        }
        let next = start + used as usize;
        let object = match prepare_object(name, output.as_slice()) {
            Ok(o) => o,
            Err(_) => PreparedObject { id: String::new(), compressed: Vec::new() },
        };
        proof {
            es = es + 1;
        }
        let ghost old_objects = objects@;
        objects.push(UnpackedObject { object, warning });
        assert forall|k: int| 0 <= k < objects@.len() implies object_is(
            #[trigger] objects@[k],
            pack_run(data@, es).objects[k],
        ) by {
            if k < old_objects.len() {
                assert(objects@[k] == old_objects[k]);
            }
        }
        pos = next;
        n = n + 1;
    }
    let r = UnpackReport { objects, deltas, end: UnpackEnd::Complete };
    assert(report_is(r, pack_run(data@, es)));
    r
}

/// An entry's data starts within the pack.
proof fn lemma_entry_header_within(data: Seq<u8>, pos: int)
    requires
        entry_header(data, pos) is Some,
    ensures
        (entry_header(data, pos)->0).2 <= data.len(),
{
    let b = data[pos];
    if b & 0x80u8 != 0 {
        lemma_size_continue_within(data, pos + 1, (b & 15u8) as usize, 4);
    }
}

proof fn lemma_size_continue_within(data: Seq<u8>, p: int, size: usize, shift: u32)
    requires
        size_continue(data, p, size, shift) is Some,
    ensures
        (size_continue(data, p, size, shift)->0).1 <= data.len(),
    decreases data.len() - p,
{
    let b = data[p];
    if b & 0x80u8 != 0 {
        lemma_size_continue_within(data, p + 1, size | (((b & 0x7fu8) as usize) << shift), (shift + 7) as u32);
    }
}

/// A delta's data starts within the pack.
proof fn lemma_offset_end_within(data: Seq<u8>, pos: int)
    requires
        offset_end(data, pos) is Some,
    ensures
        offset_end(data, pos)->0 <= data.len(),
{
    let b = data[pos];
    if b & 0x80u8 != 0 {
        lemma_offset_continue_within(data, pos + 1, (b & 0x7fu8) as usize);
    }
}

proof fn lemma_offset_continue_within(data: Seq<u8>, p: int, offset: usize)
    requires
        offset_continue(data, p, offset) is Some,
    ensures
        offset_continue(data, p, offset)->0 <= data.len(),
    decreases data.len() - p,
{
    let b = data[p];
    if b & 0x80u8 != 0 {
        lemma_offset_continue_within(data, p + 1, (((offset + 1) as usize) << 7usize) | ((b & 0x7fu8) as usize));
    }
}

/// An entry of an object type that is read becomes the next object, and
/// its type is the one the pack format numbers its type number with: 1 a
/// commit, 2 a tree, 3 a blob, 4 a tag.
pub proof fn lemma_entry_object_type(data: Seq<u8>, st: PackState)
    requires
        st.stop is None,
        entry_header(data, st.pos) matches Some((t, _, _)) && 1 <= t <= 4,
        pack_step(data, st).stop is None,
    ensures
        pack_step(data, st).objects.len() == st.objects.len() + 1,
        pack_step(data, st).objects.drop_last() == st.objects,
        pack_step(data, st).objects.last().0 == numbered_object_types()[(entry_header(data, st.pos)->0).0 - 1],
        pack_step(data, st).deltas == st.deltas,
{
    let t = (entry_header(data, st.pos)->0).0;
    lemma_pack_type_numbers(t);
    assert(pack_step(data, st).objects.drop_last() =~= st.objects);
}

/// A reference delta (type 7) is skipped with its 20-byte base object id:
/// the next entry begins where the zlib stream that follows the id ends
/// (`skip_to` from the end of the header plus 20); reading stops as
/// malformed when the id is cut short or that stream cannot be skipped.
pub proof fn lemma_ref_delta_skips_base_id(data: Seq<u8>, st: PackState)
    requires
        st.stop is None,
        entry_header(data, st.pos) matches Some((t, _, _)) && t == 7,
    ensures
        ({
            let start = (entry_header(data, st.pos)->0).2;
            &&& (start + 20 <= data.len() && skip_to(data, start + 20) is Some) ==> {
                &&& pack_step(data, st).pos == skip_to(data, start + 20)->0
                &&& pack_step(data, st).objects == st.objects
                &&& pack_step(data, st).deltas == st.deltas + 1
                &&& pack_step(data, st).stop is None
            }
            &&& !(start + 20 <= data.len() && skip_to(data, start + 20) is Some) ==> pack_step(data, st)
                == stopped(st, StopKind::Malformed)
        }),
{
}

/// The 20 bytes of a reference delta's base object id do not change how
/// the entry is read: two packs that differ only there read the same.
pub proof fn lemma_ref_delta_base_id_ignored(d1: Seq<u8>, d2: Seq<u8>, st: PackState)
    requires
        st.stop is None,
        d1.len() == d2.len(),
        entry_header(d1, st.pos) matches Some((t, _, _)) && t == 7,
        forall|i: int|
            0 <= i < d1.len() && !((entry_header(d1, st.pos)->0).2 <= i < (entry_header(d1, st.pos)->0).2 + 20)
                ==> #[trigger] d1[i] == d2[i],
    ensures
        pack_step(d1, st) == pack_step(d2, st),
{
    let start = (entry_header(d1, st.pos)->0).2;
    lemma_entry_header_agree(d1, d2, st.pos, start);
    if start + 20 <= d1.len() {
        assert forall|k: int| 0 <= k < d1.len() - (start + 20) implies #[trigger] d1.skip(start + 20)[k]
            == d2.skip(start + 20)[k] by {
            assert(d1[start + 20 + k] == d2[start + 20 + k]);
        }
        assert(d1.skip(start + 20) =~= d2.skip(start + 20));
    }
}

/// Two packs of one length that agree before `bound` give the same header
/// for an entry whose data starts at or before `bound`.
proof fn lemma_entry_header_agree(d1: Seq<u8>, d2: Seq<u8>, pos: int, bound: int)
    requires
        d1.len() == d2.len(),
        entry_header(d1, pos) matches Some((_, _, n)) && n <= bound,
        forall|i: int| 0 <= i < d1.len() && i < bound ==> #[trigger] d1[i] == d2[i],
    ensures
        entry_header(d2, pos) == entry_header(d1, pos),
        0 <= pos < (entry_header(d1, pos)->0).2,
{
    let b = d1[pos];
    if b & 0x80u8 != 0 {
        lemma_size_continue_agree(d1, d2, pos + 1, (b & 15u8) as usize, 4, bound);
    }
    assert(d1[pos] == d2[pos]);
}

proof fn lemma_size_continue_agree(d1: Seq<u8>, d2: Seq<u8>, p: int, size: usize, shift: u32, bound: int)
    requires
        d1.len() == d2.len(),
        size_continue(d1, p, size, shift) matches Some((_, n)) && n <= bound,
        forall|i: int| 0 <= i < d1.len() && i < bound ==> #[trigger] d1[i] == d2[i],
    ensures
        size_continue(d2, p, size, shift) == size_continue(d1, p, size, shift),
        (size_continue(d1, p, size, shift)->0).1 > p,
    decreases d1.len() - p,
{
    let b = d1[p];
    if b & 0x80u8 != 0 {
        lemma_size_continue_agree(d1, d2, p + 1, size | (((b & 0x7fu8) as usize) << shift), (shift + 7) as u32, bound);
    }
    assert(d1[p] == d2[p]);
}

} // verus!
