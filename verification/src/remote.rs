//! Remotes: their entries in the configuration, and the ref advertisement
//! a server sends in pkt-line format.
use vstd::prelude::*;
use vstd::string::*;
use vstd::utf8::encode_utf8;
use crate::error::Git5Error;
use crate::codec::{lenient_utf8, utf8_lossy};
use crate::text::{
    lines, trim, first_index, chars_of, line_ranges, trim_range, find_char, sub_vec, append_chars,
    append_str, string_of_all, string_of, has_prefix, chars_equal,
};

verus! {

broadcast use vstd::string::group_string_axioms;

/// The section header of remote `name`: `[remote "name"]`.
pub open spec fn remote_header(name: Seq<char>) -> Seq<char> {
    "[remote \""@ + name + "\"]"@
}

/// The configuration text that adds remote `name` at `url`.
pub fn remote_section(name: &str, url: &str) -> (s: String)
    ensures
        s@ == remote_header(name@) + seq!['\n'] + "url = "@ + url@ + seq!['\n'],
{
    let mut v: Vec<char> = Vec::new();
    append_str(&mut v, "[remote \"");
    append_str(&mut v, name);
    append_str(&mut v, "\"]");
    v.push('\n');
    append_str(&mut v, "url = ");
    append_str(&mut v, url);
    v.push('\n');
    string_of_all(&v)
}

/// The url of the remote whose header is `header`, searching trimmed lines
/// from the front: the header enters its section, any other `[` line leaves
/// it, and the first `url = ` line inside gives the trimmed url.
pub open spec fn url_search(ls: Seq<Seq<char>>, header: Seq<char>, inside: bool) -> Option<Seq<char>>
    decreases ls.len(),
{
    if ls.len() == 0 {
        None
    } else {
        let l = trim(ls[0]);
        if l == header {
            url_search(ls.drop_first(), header, true)
        } else if l.len() > 0 && l[0] == '[' {
            url_search(ls.drop_first(), header, false)
        } else if inside && "url = "@.is_prefix_of(l) {
            Some(trim(l.skip(6)))
        } else {
            url_search(ls.drop_first(), header, inside)
        }
    }
}

/// The url of remote `name`, given the configuration text (`None` when
/// there is no configuration file). A name that starts with `http` stands
/// for itself when no section gives it a url.
pub fn get_remote_url(config: Option<&str>, name: &str) -> (r: Result<String, Git5Error>)
    ensures
        config is None && "http"@.is_prefix_of(name@) ==> (r matches Ok(u) && u@ == name@),
        config is None && !"http"@.is_prefix_of(name@) ==> (r matches Err(Git5Error::InvalidRef(m))
            && m@ == "No remotes configured"@),
        config matches Some(c) ==> (match url_search(lines(c@), remote_header(name@), false) {
            Some(u) => r matches Ok(x) && x@ == u,
            None => if "http"@.is_prefix_of(name@) {
                r matches Ok(x) && x@ == name@
            } else {
                r matches Err(Git5Error::InvalidRef(m)) && m@ == "Remote '"@ + name@ + "' not found"@
            },
        }),
{
    proof {
        reveal_strlit("url = ");
    }
    let nv = chars_of(name);
    let http = chars_of("http");
    let is_http = has_prefix(&nv, 0, nv.len(), &http);
    assert(nv@.subrange(0, nv@.len() as int) =~= nv@);
    let content = match config {
        None => {
            if is_http {
                return Ok(string_of_all(&nv));
            }
            return Err(Git5Error::InvalidRef(String::from_str("No remotes configured")));
        },
        Some(c) => c,
    };
    let mut header: Vec<char> = Vec::new();
    append_str(&mut header, "[remote \"");
    append_chars(&mut header, &nv);
    append_str(&mut header, "\"]");
    let url_pre = chars_of("url = ");
    let v = chars_of(content);
    let ranges = line_ranges(&v);
    let ghost ls = lines(v@);
    let mut inside = false;
    let mut k: usize = 0;
    assert(ls.skip(0) =~= ls);
    while k < ranges.len()
        invariant
            ls == lines(v@),
            v@ == content@,
            config == Some(content),
            header@ == remote_header(name@),
            url_pre@ == "url = "@,
            "url = "@.len() == 6,
            ranges@.len() == ls.len(),
            forall|q: int|
                #![trigger ranges@[q]]
                0 <= q < ranges@.len() ==> {
                    &&& ranges@[q].0 <= ranges@[q].1 <= v@.len()
                    &&& ls[q] == v@.subrange(ranges@[q].0 as int, ranges@[q].1 as int)
                },
            k <= ranges@.len(),
            url_search(ls, header@, false) == url_search(ls.skip(k as int), header@, inside),
        decreases ranges@.len() - k,
    {
        let (a, b) = ranges[k];
        let (s, e) = trim_range(&v, a, b);
        let ghost l = trim(ls[k as int]);
        assert(ls.skip(k as int)[0] == ls[k as int]);
        assert(ls.skip(k as int).drop_first() =~= ls.skip(k + 1));
        let line = sub_vec(&v, s, e);
        assert(line@ == l);
        if chars_equal(&line, &header) {
            inside = true;
        } else if s < e && v[s] == '[' {
            inside = false;
        } else if inside && has_prefix(&v, s, e, &url_pre) {
            let (us, ue) = trim_range(&v, s + 6, e);
            assert(v@.subrange(s + 6, e as int) =~= l.skip(6));
            return Ok(string_of(&v, us, ue));
        }
        k = k + 1;
    }
    if is_http {
        return Ok(string_of_all(&nv));
    }
    let mut m: Vec<char> = Vec::new();
    append_str(&mut m, "Remote '");
    append_chars(&mut m, &nv);
    append_str(&mut m, "' not found");
    Err(Git5Error::InvalidRef(string_of_all(&m)))
}

/// The value of a hexadecimal digit byte of either case.
pub open spec fn hex_byte_value(b: u8) -> Option<int> {
    if 48 <= b <= 57 {
        Some(b - 48)
    } else if 97 <= b <= 102 {
        Some(b - 87)
    } else if 65 <= b <= 70 {
        Some(b - 55)
    } else {
        None
    }
}

/// The length a pkt-line's four length bytes give, as `usize::from_str_radix`
/// in base 16 reads them (an optional leading `+`, then hexadecimal digits of
/// either case), with 0 for anything it does not accept.
pub open spec fn pkt_length(b: Seq<u8>, pos: int) -> int {
    let d0 = hex_byte_value(b[pos]);
    let d1 = hex_byte_value(b[pos + 1]);
    let d2 = hex_byte_value(b[pos + 2]);
    let d3 = hex_byte_value(b[pos + 3]);
    if d1 is Some && d2 is Some && d3 is Some {
        if d0 is Some {
            d0->0 * 4096 + d1->0 * 256 + d2->0 * 16 + d3->0
        } else if b[pos] == 43u8 {
            d1->0 * 256 + d2->0 * 16 + d3->0
        } else {
            0
        }
    } else {
        0
    }
}

/// The hexadecimal digits `0` to `9` and `a` to `f` (or `A` to `F`) have the
/// values 0 to 15, in that order.
pub proof fn lemma_hex_digit_values(i: int)
    requires
        0 <= i < 16,
    ensures
        hex_byte_value(("0123456789abcdef"@[i] as u32) as u8) == Some(i),
        10 <= i ==> hex_byte_value(("0123456789ABCDEF"@[i] as u32) as u8) == Some(i),
{
    reveal_strlit("0123456789abcdef");
    reveal_strlit("0123456789ABCDEF");
}

/// The number hexadecimal digits spell, most significant digit first (a
/// byte that is no hexadecimal digit counts as 0).
pub open spec fn hex_number(s: Seq<u8>) -> int
    decreases s.len(),
{
    if s.len() == 0 {
        0
    } else {
        let d = match hex_byte_value(s.last()) {
            Some(v) => v,
            None => 0,
        };
        16 * hex_number(s.drop_last()) + d
    }
}

/// A pkt-line's length is its four length bytes read as a base-16 number,
/// most significant digit first (so "0153" is 339); a leading `+` in place
/// of the first digit leaves the three digits after it.
pub proof fn lemma_pkt_length_base16(b: Seq<u8>, pos: int)
    requires
        0 <= pos,
        pos + 4 <= b.len(),
        hex_byte_value(b[pos + 1]) is Some,
        hex_byte_value(b[pos + 2]) is Some,
        hex_byte_value(b[pos + 3]) is Some,
    ensures
        hex_byte_value(b[pos]) is Some ==> pkt_length(b, pos) == hex_number(b.subrange(pos, pos + 4)),
        b[pos] == 43u8 ==> pkt_length(b, pos) == hex_number(b.subrange(pos + 1, pos + 4)),
{
    let s = b.subrange(pos, pos + 4);
    assert(s.drop_last() =~= b.subrange(pos, pos + 3));
    assert(s.drop_last().drop_last() =~= b.subrange(pos, pos + 2));
    assert(s.drop_last().drop_last().drop_last() =~= b.subrange(pos, pos + 1));
    assert(s.drop_last().drop_last().drop_last().drop_last() =~= b.subrange(pos, pos));
    let r = b.subrange(pos + 1, pos + 4);
    assert(r.drop_last() =~= b.subrange(pos + 1, pos + 3));
    assert(r.drop_last().drop_last() =~= b.subrange(pos + 1, pos + 2));
    assert(r.drop_last().drop_last().drop_last() =~= b.subrange(pos + 1, pos + 1));
    reveal_with_fuel(hex_number, 5);
}

/// `s` without trailing slashes.
pub open spec fn trim_end_slashes(s: Seq<char>) -> Seq<char>
    decreases s.len(),
{
    if s.len() > 0 && s.last() == '/' {
        trim_end_slashes(s.drop_last())
    } else {
        s
    }
}

/// Where a server at `url` advertises its refs for fetching: the url
/// without trailing slashes, then `/info/refs?service=git-upload-pack`.
pub fn refs_endpoint(url: &str) -> (s: String)
    ensures
        s@ == trim_end_slashes(url@) + "/info/refs?service=git-upload-pack"@,
{
    let v = chars_of(url);
    let mut e: usize = v.len();
    assert(v@.subrange(0, e as int) =~= v@);
    while e > 0 && v[e - 1] == '/'
        invariant
            e <= v@.len(),
            trim_end_slashes(v@.subrange(0, e as int)) == trim_end_slashes(v@),
        decreases e,
    {
        assert(v@.subrange(0, e - 1) =~= v@.subrange(0, e as int).drop_last());
        e = e - 1;
    }
    let mut out = sub_vec(&v, 0, e);
    append_str(&mut out, "/info/refs?service=git-upload-pack");
    string_of_all(&out)
}

/// `s` without trailing line feeds.
pub open spec fn trim_end_newlines(s: Seq<char>) -> Seq<char>
    decreases s.len(),
{
    if s.len() > 0 && s.last() == '\n' {
        trim_end_newlines(s.drop_last())
    } else {
        s
    }
}

/// The ref a pkt-line's payload advertises: read as text without trailing
/// line feeds, skipped when it starts with `#` or is under 40 bytes long,
/// else cut at its first NUL and split at its first space into id and name.
pub open spec fn advertised_ref(payload: Seq<u8>) -> Option<(Seq<char>, Seq<char>)> {
    let t = trim_end_newlines(lenient_utf8(payload));
    if t.len() > 0 && t[0] == '#' {
        None
    } else if encode_utf8(t).len() < 40 {
        None
    } else {
        let z = first_index(t, '\0');
        let seg = if z < 0 {
            t
        } else {
            t.subrange(0, z)
        };
        let sp = first_index(seg, ' ');
        if sp < 0 {
            None
        } else {
            Some((seg.subrange(0, sp), seg.subrange(sp + 1, seg.len() as int)))
        }
    }
}

/// The refs advertised from `pos` on: a length of 0 is a flush and skipped;
/// a line longer than what is left ends the reading; a length of 1 to 3 is
/// cut short (`None`: reading it by index goes out of bounds).
pub open spec fn pkt_refs(data: Seq<u8>, pos: int) -> Option<Seq<(Seq<char>, Seq<char>)>>
    decreases data.len() - pos,
{
    if pos < 0 || pos + 4 > data.len() {
        Some(Seq::empty())
    } else {
        let n = pkt_length(data, pos);
        if n == 0 {
            pkt_refs(data, pos + 4)
        } else if pos + n > data.len() {
            Some(Seq::empty())
        } else if n < 4 {
            None
        } else {
            let here = match advertised_ref(data.subrange(pos + 4, pos + n)) {
                Some(r) => seq![r],
                None => Seq::empty(),
            };
            match pkt_refs(data, pos + n) {
                Some(rest) => Some(here + rest),
                None => None,
            }
        }
    }
}

fn hex_byte(b: u8) -> (r: Option<usize>)
    ensures
        r is Some <==> hex_byte_value(b) is Some,
        r matches Some(v) ==> v == hex_byte_value(b)->0,
{
    if 48 <= b && b <= 57 {
        Some((b - 48) as usize)
    } else if 97 <= b && b <= 102 {
        Some((b - 87) as usize)
    } else if 65 <= b && b <= 70 {
        Some((b - 55) as usize)
    } else {
        None
    }
}

fn read_pkt_length(data: &[u8], pos: usize) -> (n: usize)
    requires
        pos + 4 <= data@.len(),
    ensures
        n == pkt_length(data@, pos as int),
{
    let d0 = hex_byte(data[pos]);
    let d1 = hex_byte(data[pos + 1]);
    let d2 = hex_byte(data[pos + 2]);
    let d3 = hex_byte(data[pos + 3]);
    match (d1, d2, d3) {
        (Some(a), Some(b), Some(c)) => match d0 {
            Some(z) => z * 4096 + a * 256 + b * 16 + c,
            None => if data[pos] == 43u8 {
                a * 256 + b * 16 + c
            } else {
                0
            },
        },
        _ => 0,
    }
}

/// The ref that one payload advertises.
fn payload_ref(payload: &[u8]) -> (r: Option<(String, String)>)
    ensures
        r is Some <==> advertised_ref(payload@) is Some,
        r matches Some((h, n)) ==> (h@, n@) == advertised_ref(payload@)->0,
{
    let text = utf8_lossy(payload);
    let v = chars_of(text.as_str());
    let mut end = v.len();
    assert(v@.subrange(0, v@.len() as int) =~= v@);
    while end > 0 && v[end - 1] == '\n'
        invariant
            end <= v@.len(),
            trim_end_newlines(v@) == trim_end_newlines(v@.subrange(0, end as int)),
        decreases end,
    {
        assert(v@.subrange(0, end as int).drop_last() =~= v@.subrange(0, end - 1));
        end = end - 1;
    }
    let ghost t = v@.subrange(0, end as int);
    assert(trim_end_newlines(t) == t);
    assert(trim_end_newlines(lenient_utf8(payload@)) == t);
    if end > 0 && v[0] == '#' {
        assert(t[0] == v@[0]);
        return None;
    }
    let trimmed = string_of(&v, 0, end);
    if trimmed.as_str().as_bytes().len() < 40 {
        return None;
    }
    let z = find_char(&v, '\0', 0, end);
    let sp = find_char(&v, ' ', 0, z);
    assert(v@.subrange(0, z as int) == (if z == end {
        t
    } else {
        t.subrange(0, z as int)
    }));
    if sp == z {
        return None;
    }
    Some((string_of(&v, 0, sp), string_of(&v, sp + 1, z)))
}

/// The refs a server advertises in pkt-line format, as (id, name) pairs in
/// order; `None` when a line's length is 1 to 3.
pub fn parse_ref_advertisement(data: &[u8]) -> (r: Option<Vec<(String, String)>>)
    ensures
        r is Some <==> pkt_refs(data@, 0) is Some,
        r matches Some(v) ==> v@.map_values(|e: (String, String)| (e.0@, e.1@)) == pkt_refs(data@, 0)->0,
{
    let mut out: Vec<(String, String)> = Vec::new();
    let ghost mut found: Seq<(Seq<char>, Seq<char>)> = Seq::empty();
    let mut pos: usize = 0;
    let mut done = false;
    assert(found + pkt_refs(data@, 0)->0 =~= pkt_refs(data@, 0)->0);
    while !done && pos <= data.len() && data.len() - pos >= 4
        invariant
            pos <= data@.len() + 4,
            done ==> pkt_refs(data@, pos as int) == Some(Seq::<(Seq<char>, Seq<char>)>::empty()),
            out@.map_values(|e: (String, String)| (e.0@, e.1@)) == found,
            pkt_refs(data@, 0) is Some <==> pkt_refs(data@, pos as int) is Some,
            pkt_refs(data@, pos as int) is Some ==> pkt_refs(data@, 0)->0 == found + pkt_refs(
                data@,
                pos as int,
            )->0,
        decreases data@.len() + 4 - pos, if done {
            0int
        } else {
            1int
        },
    {
        let n = read_pkt_length(data, pos);
        if n == 0 {
            pos = pos + 4;
            continue;
        }
        if n > data.len() - pos {
            done = true;
            continue;
        }
        if n < 4 {
            return None;
        }
        let payload = crate::text::byte_range(data, pos + 4, pos + n);
        let ghost old_pos = pos as int;
        match payload_ref(payload.as_slice()) {
            Some(rf) => {
                let ghost e = (rf.0@, rf.1@);
                let ghost old_out = out@;
                out.push(rf);
                assert(out@.map_values(|e: (String, String)| (e.0@, e.1@)) =~= old_out.map_values(
                    |e: (String, String)| (e.0@, e.1@),
                ).push(e));
                proof {
                    if pkt_refs(data@, pos + n) is Some {
                        assert(found + (seq![e] + pkt_refs(data@, pos + n)->0) =~= found.push(e)
                            + pkt_refs(data@, pos + n)->0);
                    }
                    found = found.push(e);
                }
            },
            None => {
                proof {
                    if pkt_refs(data@, pos + n) is Some {
                        assert(Seq::<(Seq<char>, Seq<char>)>::empty() + pkt_refs(data@, pos + n)->0
                            =~= pkt_refs(data@, pos + n)->0);
                    }
                }
            },
        }
        pos = pos + n;
    }
    proof {
        assert(found + Seq::<(Seq<char>, Seq<char>)>::empty() =~= found);
    }
    Some(out)
}

} // verus!
