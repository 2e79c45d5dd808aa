//! Tree objects: a sequence of entries `mode name\0` followed by the 20-byte
//! id of the entry's object.
use vstd::prelude::*;
use vstd::string::*;
use vstd::utf8::{encode_utf8, decode_utf8, valid_utf8};
use crate::error::Git5Error;
use crate::codec::{
    is_lower_hex, lemma_hex_roundtrip,
    hex_lower, hex_encode, hex_decode, hex_valid, hex_bytes, hex_value, hex_digit, hex_error_of,
    lossy_of, lenient_utf8, utf8_lossy, lemma_encode_utf8_concat, lemma_encode_utf8_lacks_ascii,
    lemma_encode_utf8_ascii_char,
};
use crate::strmap::StrMap;
use crate::text::{
    lemma_chars_lt_total, lemma_chars_lt_transitive, lemma_chars_lt_asymmetric, lemma_chars_lt_irreflexive,
    first_index, lemma_first_index, lemma_first_index_is, find_byte, byte_range, append_bytes,
    chars_of, chars_lt, chars_less, chars_equal, append_chars, append_str, string_of_all,
};

verus! {

broadcast use vstd::utf8::group_utf8_lib;

/// One entry read from tree bytes starting at `i`: the mode bytes up to the
/// first space (empty, with the space taken to be at `i`, when there is
/// none), the name bytes up to the next NUL, the 20 id bytes after it, and
/// where the next entry starts. `None` when the entry is cut short, which is
/// where reading such bytes by index goes out of bounds.
pub open spec fn tree_step(c: Seq<u8>, i: int) -> Option<(Seq<u8>, Seq<u8>, Seq<u8>, int)> {
    let s = first_index(c.subrange(i, c.len() as int), 32u8);
    let sp = if s < 0 {
        i
    } else {
        i + s
    };
    let z = first_index(c.subrange(sp, c.len() as int), 0u8);
    let nul = if z < 0 {
        sp
    } else {
        sp + z
    };
    if nul < sp + 1 || nul + 21 > c.len() {
        None
    } else {
        Some((c.subrange(i, sp), c.subrange(sp + 1, nul), c.subrange(nul + 1, nul + 21), nul + 21))
    }
}

/// Where `tree_step` leaves off lies past where it started.
pub proof fn lemma_tree_step(c: Seq<u8>, i: int)
    requires
        0 <= i < c.len(),
    ensures
        tree_step(c, i) matches Some((m, n, d, next)) ==> i + 21 < next <= c.len() && d.len() == 20,
{
    lemma_first_index(c.subrange(i, c.len() as int), 32u8);
    let s = first_index(c.subrange(i, c.len() as int), 32u8);
    let sp = if s < 0 {
        i
    } else {
        i + s
    };
    lemma_first_index(c.subrange(sp, c.len() as int), 0u8);
}

/// The entries of tree bytes from `i` on, as (mode, name, id) bytes, or
/// `None` when one of them is cut short.
pub open spec fn tree_records(c: Seq<u8>, i: int) -> Option<Seq<(Seq<u8>, Seq<u8>, Seq<u8>)>>
    decreases c.len() - i,
{
    if i < 0 || i >= c.len() {
        Some(Seq::empty())
    } else {
        match tree_step(c, i) {
            None => None,
            Some((m, n, d, next)) => {
                proof {
                    lemma_tree_step(c, i);
                }
                match tree_records(c, next) {
                    Some(rest) => Some(seq![(m, n, d)] + rest),
                    None => None,
                }
            },
        }
    }
}

/// An entry of a tree as text: its mode, its name and the hexadecimal id of
/// the object it names.
pub struct TreeEntry {
    pub mode: String,
    pub name: String,
    pub id: String,
}

/// The text of an entry read from raw (mode, name, id) bytes: mode and name
/// decoded leniently, the id in lower-case hexadecimal.
pub open spec fn entry_text(r: (Seq<u8>, Seq<u8>, Seq<u8>)) -> (Seq<char>, Seq<char>, Seq<char>) {
    (lenient_utf8(r.0), lenient_utf8(r.1), hex_lower(r.2))
}

/// The text of an entry.
pub open spec fn entry_view(e: TreeEntry) -> (Seq<char>, Seq<char>, Seq<char>) {
    (e.mode@, e.name@, e.id@)
}

/// The entries of tree bytes from `i` on that can be read before one is cut
/// short, and whether the bytes were read to their end.
pub open spec fn tree_prefix(c: Seq<u8>, i: int) -> (Seq<(Seq<u8>, Seq<u8>, Seq<u8>)>, bool)
    decreases c.len() - i,
{
    if i < 0 || i >= c.len() {
        (Seq::empty(), true)
    } else {
        match tree_step(c, i) {
            None => (Seq::empty(), false),
            Some((m, n, d, next)) => {
                proof {
                    lemma_tree_step(c, i);
                }
                let rest = tree_prefix(c, next);
                (seq![(m, n, d)] + rest.0, rest.1)
            },
        }
    }
}

/// The entries read to the end are all the entries.
proof fn lemma_tree_prefix_records(c: Seq<u8>, i: int)
    ensures
        tree_records(c, i) is Some <==> tree_prefix(c, i).1,
        tree_records(c, i) matches Some(recs) ==> recs == tree_prefix(c, i).0,
    decreases c.len() - i,
{
    if 0 <= i < c.len() {
        if let Some((m, n, d, next)) = tree_step(c, i) {
            lemma_tree_step(c, i);
            lemma_tree_prefix_records(c, next);
        }
    }
}

/// Reads the entries of a tree's content, in order, up to where one is cut
/// short (where reading its bytes by index would go out of bounds); and
/// whether the content was read to its end.
pub fn read_tree_entries(content: &[u8]) -> (r: (Vec<TreeEntry>, bool))
    ensures
        r.1 == tree_prefix(content@, 0).1,
        r.0@.len() == tree_prefix(content@, 0).0.len(),
        forall|k: int| 0 <= k < r.0@.len() ==> #[trigger] entry_view(r.0@[k]) == entry_text(tree_prefix(content@, 0).0[k]),
{
    let c = byte_range(content, 0, content.len());
    assert(c@ =~= content@);
    let len = c.len();
    let mut out: Vec<TreeEntry> = Vec::new();
    let ghost mut recs: Seq<(Seq<u8>, Seq<u8>, Seq<u8>)> = Seq::empty();
    let mut i: usize = 0;
    assert(recs + tree_prefix(content@, 0).0 =~= tree_prefix(content@, 0).0);
    while i < len
        invariant
            c@ == content@,
            len == c@.len(),
            i <= len,
            out@.len() == recs.len(),
            forall|k: int| 0 <= k < out@.len() ==> #[trigger] entry_view(out@[k]) == entry_text(recs[k]),
            tree_prefix(content@, 0).1 == tree_prefix(content@, i as int).1,
            tree_prefix(content@, 0).0 == recs + tree_prefix(content@, i as int).0,
        decreases len - i,
    {
        let sp0 = find_byte(&c, 32u8, i, len);
        let sp = if sp0 == len {
            i
        } else {
            sp0
        };
        let nul0 = find_byte(&c, 0u8, sp, len);
        let nul = if nul0 == len {
            sp
        } else {
            nul0
        };
        proof {
            lemma_tree_step(content@, i as int);
        }
        if nul < sp + 1 || len - nul < 21 {
            assert(tree_step(content@, i as int) is None);
            assert(recs + Seq::<(Seq<u8>, Seq<u8>, Seq<u8>)>::empty() =~= recs);
            return (out, false);
        }
        let mode_bytes = byte_range(c.as_slice(), i, sp);
        let name_bytes = byte_range(c.as_slice(), sp + 1, nul);
        let id_bytes = byte_range(c.as_slice(), nul + 1, nul + 21);
        let entry = TreeEntry {
            mode: utf8_lossy(mode_bytes.as_slice()),
            name: utf8_lossy(name_bytes.as_slice()),
            id: hex_encode(id_bytes.as_slice()),
        };
        let ghost rec = (mode_bytes@, name_bytes@, id_bytes@);
        assert(tree_step(content@, i as int) == Some((rec.0, rec.1, rec.2, nul + 21)));
        out.push(entry);
        let ghost old_i = i as int;
        i = nul + 21;
        proof {
            let rest = tree_prefix(content@, i as int);
            assert(tree_prefix(content@, old_i) == (seq![rec] + rest.0, rest.1));
            assert(recs + (seq![rec] + rest.0) =~= recs.push(rec) + rest.0);
            recs = recs.push(rec);
        }
    }
    assert(tree_prefix(content@, len as int) == (Seq::<(Seq<u8>, Seq<u8>, Seq<u8>)>::empty(), true));
    assert(recs + Seq::<(Seq<u8>, Seq<u8>, Seq<u8>)>::empty() =~= recs);
    (out, true)
}

/// Reads the entries of a tree's content. `None` exactly when an entry is
/// cut short (where reading its bytes by index would go out of bounds).
pub fn parse_tree(content: &[u8]) -> (r: Option<Vec<TreeEntry>>)
    ensures
        r is None <==> tree_records(content@, 0) is None,
        r matches Some(v) ==> {
            let recs = tree_records(content@, 0)->0;
            &&& v@.len() == recs.len()
            &&& forall|k: int| 0 <= k < v@.len() ==> #[trigger] entry_view(v@[k]) == entry_text(recs[k])
        },
{
    proof {
        lemma_tree_prefix_records(content@, 0);
    }
    let (entries, complete) = read_tree_entries(content);
    if complete {
        Some(entries)
    } else {
        None
    }
}

/// (mode, name, id) text of a tree entry.
pub type EntryText = (Seq<char>, Seq<char>, Seq<char>);

/// An entry to write into a tree: its mode, name, and object id in
/// hexadecimal.
pub struct TreeItem {
    pub mode: String,
    pub name: String,
    pub id: String,
}

/// The text of an item.
pub open spec fn item_view(t: TreeItem) -> EntryText {
    (t.mode@, t.name@, t.id@)
}

/// The texts of items.
pub open spec fn items_view(s: Seq<TreeItem>) -> Seq<EntryText> {
    s.map_values(|t: TreeItem| item_view(t))
}

/// `x` placed into `s` after every entry whose name is not greater than its
/// own (the step of a stable sort by name).
pub open spec fn insert_by_name(s: Seq<EntryText>, x: EntryText) -> Seq<EntryText>
    decreases s.len(),
{
    if s.len() == 0 {
        seq![x]
    } else if chars_lt(x.1, s.last().1) {
        insert_by_name(s.drop_last(), x).push(s.last())
    } else {
        s.push(x)
    }
}

/// Entries stably sorted by name (entries with equal names keep their order).
pub open spec fn sort_by_name(s: Seq<EntryText>) -> Seq<EntryText>
    decreases s.len(),
{
    if s.len() == 0 {
        s
    } else {
        insert_by_name(sort_by_name(s.drop_last()), s.last())
    }
}

/// Where the scan from the back stops is where `insert_by_name` puts `x`.
proof fn lemma_insert_by_name(s: Seq<EntryText>, x: EntryText, pos: int)
    requires
        0 <= pos <= s.len(),
        forall|j: int| pos <= j < s.len() ==> chars_lt(x.1, #[trigger] s[j].1),
        pos == 0 || !chars_lt(x.1, s[pos - 1].1),
    ensures
        insert_by_name(s, x) == s.insert(pos, x),
    decreases s.len(),
{
    if s.len() == 0 {
        assert(s.insert(pos, x) =~= seq![x]);
    } else if chars_lt(x.1, s.last().1) {
        if pos == s.len() {
            assert(!chars_lt(x.1, s[pos - 1].1));
        }
        let t = s.drop_last();
        assert forall|j: int| pos <= j < t.len() implies chars_lt(x.1, #[trigger] t[j].1) by {
            assert(t[j] == s[j]);
        }
        lemma_insert_by_name(t, x, pos);
        assert(t.insert(pos, x).push(s.last()) =~= s.insert(pos, x));
    } else {
        if pos < s.len() {
            assert(chars_lt(x.1, s[s.len() - 1].1));
        }
        assert(s.push(x) =~= s.insert(pos, x));
    }
}

/// Sorts items stably by name.
pub fn sort_items(items: Vec<TreeItem>) -> (r: Vec<TreeItem>)
    ensures
        items_view(r@) == sort_by_name(items_view(items@)),
{
    let ghost all = items_view(items@);
    let mut rest = items;
    let mut sorted: Vec<(Vec<char>, TreeItem)> = Vec::new();
    let mut k: usize = 0;
    let n = rest.len();
    while rest.len() > 0
        invariant
            k + rest@.len() == n,
            n == all.len(),
            items_view(rest@) == all.subrange(k as int, n as int),
            sorted@.len() == k,
            forall|j: int| 0 <= j < sorted@.len() ==> (#[trigger] sorted@[j]).0@ == sorted@[j].1.name@,
            Seq::new(sorted@.len(), |j: int| item_view(sorted@[j].1)) == sort_by_name(all.take(k as int)),
        decreases rest@.len(),
    {
        let ghost old_rest = rest@;
        let x = rest.remove(0);
        let ghost xv = item_view(x);
        assert(items_view(old_rest)[0] == item_view(old_rest[0]));
        assert(all.subrange(k as int, n as int)[0] == all[k as int]);
        assert(xv == all[k as int]);
        assert(items_view(rest@) =~= items_view(old_rest).subrange(1, old_rest.len() as int));
        let xn = chars_of(x.name.as_str());
        let ghost cur = Seq::new(sorted@.len(), |j: int| item_view(sorted@[j].1));
        let mut pos = sorted.len();
        while pos > 0 && chars_less(&xn, &sorted[pos - 1].0)
            invariant
                pos <= sorted@.len(),
                xn@ == xv.1,
                cur == Seq::new(sorted@.len(), |j: int| item_view(sorted@[j].1)),
                forall|j: int| 0 <= j < sorted@.len() ==> (#[trigger] sorted@[j]).0@ == sorted@[j].1.name@,
                forall|j: int| pos <= j < cur.len() ==> chars_lt(xv.1, #[trigger] cur[j].1),
            decreases pos,
        {
            assert(cur[pos - 1].1 == sorted@[pos - 1].0@);
            pos = pos - 1;
        }
        proof {
            if pos > 0 {
                assert(cur[pos - 1].1 == sorted@[pos - 1].0@);
            }
            lemma_insert_by_name(cur, xv, pos as int);
        }
        sorted.insert(pos, (xn, x));
        assert(all.take(k + 1).drop_last() =~= all.take(k as int));
        assert(all.take(k + 1).last() == xv);
        assert(Seq::new(sorted@.len(), |j: int| item_view(sorted@[j].1)) =~= cur.insert(pos as int, xv));
        assert(items_view(rest@) =~= all.subrange(k + 1, n as int));
        k = k + 1;
    }
    let mut r: Vec<TreeItem> = Vec::new();
    let ghost fin = Seq::new(sorted@.len(), |j: int| item_view(sorted@[j].1));
    let mut sorted = sorted;
    let mut j: usize = 0;
    let total = sorted.len();
    while sorted.len() > 0
        invariant
            j + sorted@.len() == total,
            fin.len() == total,
            items_view(r@) == fin.take(j as int),
            forall|q: int| 0 <= q < sorted@.len() ==> item_view((#[trigger] sorted@[q]).1) == fin[j + q],
        decreases sorted@.len(),
    {
        let ghost old_sorted = sorted@;
        let (_, x) = sorted.remove(0);
        assert(item_view(x) == fin[j as int]);
        let ghost old_r = r@;
        r.push(x);
        assert(items_view(r@) =~= items_view(old_r).push(item_view(x)));
        assert forall|q: int| 0 <= q < sorted@.len() implies item_view((#[trigger] sorted@[q]).1) == fin[j + 1 + q] by {
            assert(sorted@[q] == old_sorted[q + 1]);
        }
        assert(items_view(r@) =~= fin.take(j + 1));
        j = j + 1;
    }
    assert(all.take(n as int) =~= all);
    assert(fin.take(total as int) =~= fin);
    r
}

/// The bytes of one tree entry: `mode name\0` in UTF-8, then the id's bytes.
pub open spec fn entry_bytes(t: EntryText) -> Seq<u8> {
    encode_utf8(t.0 + seq![' '] + t.1 + seq!['\0']) + hex_bytes(t.2)
}

/// The content of a tree holding `s` in that order.
pub open spec fn tree_bytes(s: Seq<EntryText>) -> Seq<u8>
    decreases s.len(),
{
    if s.len() == 0 {
        Seq::empty()
    } else {
        tree_bytes(s.drop_last()) + entry_bytes(s.last())
    }
}

/// Every id of `s` is hexadecimal that `hex::decode` accepts.
pub open spec fn ids_valid(s: Seq<EntryText>) -> bool {
    forall|i: int| 0 <= i < s.len() ==> hex_valid((#[trigger] s[i]).2)
}

/// The first id of `s` that `hex::decode` rejects (empty when there is
/// none).
pub open spec fn first_bad_id(s: Seq<EntryText>) -> Seq<char>
    decreases s.len(),
{
    if s.len() == 0 {
        Seq::empty()
    } else if !hex_valid(s[0].2) {
        s[0].2
    } else {
        first_bad_id(s.drop_first())
    }
}

/// The id at `k` is the first bad one when all before it are valid.
proof fn lemma_first_bad_id(s: Seq<EntryText>, k: int)
    requires
        0 <= k < s.len(),
        ids_valid(s.take(k)),
        !hex_valid(s[k].2),
    ensures
        first_bad_id(s) == s[k].2,
    decreases k,
{
    if k > 0 {
        assert(s.take(k)[0] == s[0]);
        let t = s.drop_first();
        assert forall|i: int| 0 <= i < t.take(k - 1).len() implies hex_valid((#[trigger] t.take(k - 1)[i]).2) by {
            assert(t.take(k - 1)[i] == s.take(k)[i + 1]);
        }
        assert(t[k - 1] == s[k]);
        lemma_first_bad_id(t, k - 1);
    }
}

/// Inserting by name keeps every entry and adds `x`.
proof fn lemma_insert_by_name_contains(s: Seq<EntryText>, x: EntryText)
    ensures
        insert_by_name(s, x).len() == s.len() + 1,
        forall|y: EntryText| #[trigger] insert_by_name(s, x).contains(y) <==> s.contains(y) || y == x,
    decreases s.len(),
{
    if s.len() == 0 {
        assert(insert_by_name(s, x) =~= seq![x]);
        assert forall|y: EntryText| #[trigger] insert_by_name(s, x).contains(y) <==> s.contains(y) || y == x by {
            if insert_by_name(s, x).contains(y) {
                let j = choose|j: int| 0 <= j < 1 && insert_by_name(s, x)[j] == y;
            }
            if y == x {
                assert(insert_by_name(s, x)[0] == x);
            }
        }
    } else if chars_lt(x.1, s.last().1) {
        let t = s.drop_last();
        lemma_insert_by_name_contains(t, x);
        let r = insert_by_name(t, x);
        assert forall|y: EntryText| #[trigger] insert_by_name(s, x).contains(y) <==> s.contains(y) || y == x by {
            let whole = r.push(s.last());
            if whole.contains(y) {
                let j = choose|j: int| 0 <= j < whole.len() && whole[j] == y;
                if j < r.len() {
                    assert(r.contains(y));
                    if t.contains(y) {
                        let q = choose|q: int| 0 <= q < t.len() && t[q] == y;
                        assert(s[q] == y);
                    }
                } else {
                    assert(s[s.len() - 1] == y);
                }
            }
            if s.contains(y) {
                let q = choose|q: int| 0 <= q < s.len() && s[q] == y;
                if q < s.len() - 1 {
                    assert(t[q] == y);
                    assert(r.contains(y));
                    let j = choose|j: int| 0 <= j < r.len() && r[j] == y;
                    assert(whole[j] == y);
                } else {
                    assert(whole[whole.len() - 1] == y);
                }
            }
            if y == x {
                assert(r.contains(x));
                let j = choose|j: int| 0 <= j < r.len() && r[j] == x;
                assert(whole[j] == x);
            }
        }
    } else {
        assert forall|y: EntryText| #[trigger] insert_by_name(s, x).contains(y) <==> s.contains(y) || y == x by {
            let whole = s.push(x);
            if whole.contains(y) {
                let j = choose|j: int| 0 <= j < whole.len() && whole[j] == y;
                if j < s.len() {
                    assert(s[j] == y);
                }
            }
            if s.contains(y) {
                let q = choose|q: int| 0 <= q < s.len() && s[q] == y;
                assert(whole[q] == y);
            }
            if y == x {
                assert(whole[s.len() as int] == x);
            }
        }
    }
}

/// Sorting by name keeps exactly the entries it was given.
pub proof fn lemma_sort_by_name_perm(s: Seq<EntryText>)
    ensures
        sort_by_name(s).len() == s.len(),
        forall|y: EntryText| #[trigger] sort_by_name(s).contains(y) <==> s.contains(y),
    decreases s.len(),
{
    if s.len() > 0 {
        let t = s.drop_last();
        lemma_sort_by_name_perm(t);
        lemma_insert_by_name_contains(sort_by_name(t), s.last());
        assert forall|y: EntryText| #[trigger] sort_by_name(s).contains(y) <==> s.contains(y) by {
            if t.contains(y) {
                let q = choose|q: int| 0 <= q < t.len() && t[q] == y;
                assert(s[q] == y);
            }
            if s.contains(y) {
                let q = choose|q: int| 0 <= q < s.len() && s[q] == y;
                if q < s.len() - 1 {
                    assert(t[q] == y);
                }
            }
        }
    }
}

proof fn lemma_ids_valid_perm(all: Seq<EntryText>, sv: Seq<EntryText>, k: int)
    requires
        sv == sort_by_name(all),
        0 <= k < sv.len(),
        !hex_valid(sv[k].2),
    ensures
        !ids_valid(all),
{
    lemma_sort_by_name_perm(all);
    assert(sv[k] == sort_by_name(all)[k]);
    assert(sort_by_name(all).contains(sv[k]));
    let q = choose|q: int| 0 <= q < all.len() && all[q] == sv[k];
    assert(!hex_valid(all[q].2));
}

proof fn lemma_ids_valid_back(all: Seq<EntryText>, sv: Seq<EntryText>)
    requires
        sv == sort_by_name(all),
        ids_valid(sv),
    ensures
        ids_valid(all),
{
    lemma_sort_by_name_perm(all);
    assert forall|i: int| 0 <= i < all.len() implies hex_valid((#[trigger] all[i]).2) by {
        assert(all.contains(all[i]));
        assert(sort_by_name(all).contains(all[i]));
        let q = choose|q: int| 0 <= q < sv.len() && sv[q] == all[i];
        assert(hex_valid(sv[q].2));
    }
}

/// The content of a tree of `items`: sorted stably by name, each written as
/// `mode name\0` and the id's bytes. Fails, with a parse error whose message
/// is `Invalid hex: ` and the text of the error for the first id (in that
/// order) that is not valid hexadecimal, exactly when there is one.
pub fn build_tree(items: Vec<TreeItem>) -> (r: Result<Vec<u8>, Git5Error>)
    ensures
        r is Ok <==> ids_valid(items_view(items@)),
        r matches Ok(b) ==> b@ == tree_bytes(sort_by_name(items_view(items@))),
        r matches Err(e) ==> (e matches Git5Error::ParseError(m) && m@ == "Invalid hex: "@ + hex_error_of(
            first_bad_id(sort_by_name(items_view(items@))),
        )),
{
    let ghost all = items_view(items@);
    let sorted = sort_items(items);
    proof {
        lemma_sort_by_name_perm(all);
    }
    let ghost sv = items_view(sorted@);
    let mut out: Vec<u8> = Vec::new();
    let mut k: usize = 0;
    while k < sorted.len()
        invariant
            sv == items_view(sorted@),
            sv == sort_by_name(all),
            all == items_view(items@),
            k <= sv.len(),
            out@ == tree_bytes(sv.take(k as int)),
            ids_valid(sv.take(k as int)),
        decreases sv.len() - k,
    {
        let item = &sorted[k];
        let mut head = chars_of(item.mode.as_str());
        head.push(' ');
        let name = chars_of(item.name.as_str());
        append_chars(&mut head, &name);
        head.push('\0');
        let text = string_of_all(&head);
        let hb = text.as_str().as_bytes_vec();
        assert(sv[k as int] == item_view(sorted@[k as int]));
        assert(head@ =~= sv[k as int].0 + seq![' '] + sv[k as int].1 + seq!['\0']);
        match hex_decode(item.id.as_str()) {
            Ok(id) => {
                append_bytes(&mut out, hb.as_slice());
                append_bytes(&mut out, id.as_slice());
                assert(sv[k as int] == item_view(sorted@[k as int]));
                assert(sv.take(k + 1).drop_last() =~= sv.take(k as int));
                assert(out@ =~= tree_bytes(sv.take(k + 1)));
                assert forall|i: int| 0 <= i < sv.take(k + 1).len() implies hex_valid(
                    (#[trigger] sv.take(k + 1)[i]).2,
                ) by {
                    if i < k {
                        assert(sv.take(k + 1)[i] == sv.take(k as int)[i]);
                    }
                }
            },
            Err(detail) => {
                let mut msg = String::from_str("Invalid hex: ");
                msg.append(detail.as_str());
                proof {
                    lemma_first_bad_id(sv, k as int);
                    assert(sv[k as int] == item_view(sorted@[k as int]));
                    assert(!hex_valid(sv[k as int].2));
                    lemma_ids_valid_perm(all, sv, k as int);
                    assert(!ids_valid(all));
                    assert(all == items_view(items@));
                }
                return Err(Git5Error::ParseError(msg));
            },
        }
        k = k + 1;
    }
    assert(sv.take(sv.len() as int) =~= sv);
    proof {
        lemma_ids_valid_back(all, sv);
    }
    Ok(out)
}

/// Entries that a tree holds and gives back unchanged: a mode without a
/// space, a name without a NUL, and an id of 40 lower-case hexadecimal
/// digits.
pub open spec fn entry_safe(t: EntryText) -> bool {
    &&& !t.0.contains(' ')
    &&& !t.1.contains('\0')
    &&& t.2.len() == 40
    &&& is_lower_hex(t.2)
}

/// The prefix of a tree's bytes holding its first `k` entries.
proof fn lemma_tree_bytes_prefix(s: Seq<EntryText>, k: int)
    requires
        0 <= k <= s.len(),
    ensures
        tree_bytes(s.take(k)).is_prefix_of(tree_bytes(s)),
    decreases s.len() - k,
{
    if k < s.len() {
        lemma_tree_bytes_prefix(s, k + 1);
        assert(s.take(k + 1).drop_last() =~= s.take(k));
        let a = tree_bytes(s.take(k));
        let b = tree_bytes(s.take(k + 1));
        assert(b == a + entry_bytes(s[k]));
        assert(a =~= b.subrange(0, a.len() as int));
        assert(a =~= tree_bytes(s).subrange(0, a.len() as int));
    } else {
        assert(s.take(k) =~= s);
        assert(tree_bytes(s).subrange(0, tree_bytes(s).len() as int) =~= tree_bytes(s));
    }
}

/// The bytes of one entry, and where its parts lie.
proof fn lemma_entry_bytes_layout(t: EntryText)
    requires
        entry_safe(t),
    ensures
        entry_bytes(t) == encode_utf8(t.0) + seq![32u8] + encode_utf8(t.1) + seq![0u8] + hex_bytes(t.2),
        !encode_utf8(t.0).contains(32u8),
        !encode_utf8(t.1).contains(0u8),
        hex_bytes(t.2).len() == 20,
        hex_lower(hex_bytes(t.2)) == t.2,
{
    let a = t.0 + seq![' '];
    let b = a + t.1;
    lemma_encode_utf8_concat(b, seq!['\0']);
    lemma_encode_utf8_concat(a, t.1);
    lemma_encode_utf8_concat(t.0, seq![' ']);
    lemma_encode_utf8_ascii_char(' ');
    lemma_encode_utf8_ascii_char('\0');
    assert(t.0 + seq![' '] + t.1 + seq!['\0'] == b + seq!['\0']);
    assert forall|i: int| 0 <= i < t.0.len() implies (#[trigger] t.0[i]) as u32 != 32u8 as u32 by {
        if t.0[i] as u32 == 32 {
            vstd::utf8::char_u32_cast(t.0[i], 32u32);
            vstd::utf8::char_u32_cast(' ', 32u32);
            assert(t.0.contains(' '));
        }
    }
    lemma_encode_utf8_lacks_ascii(t.0, 32u8);
    assert forall|i: int| 0 <= i < t.1.len() implies (#[trigger] t.1[i]) as u32 != 0u8 as u32 by {
        if t.1[i] as u32 == 0 {
            vstd::utf8::char_u32_cast(t.1[i], 0u32);
            vstd::utf8::char_u32_cast('\0', 0u32);
            assert(t.1.contains('\0'));
        }
    }
    lemma_encode_utf8_lacks_ascii(t.1, 0u8);
    lemma_hex_roundtrip(t.2);
}

/// The first `b` from `i` on lies just after `w` when `c` holds `w` at `i`,
/// `w` lacks `b`, and `b` follows.
proof fn lemma_first_after(c: Seq<u8>, i: int, w: Seq<u8>, b: u8)
    requires
        0 <= i,
        i + w.len() < c.len(),
        !w.contains(b),
        c.subrange(i, i + w.len()) == w,
        c[i + w.len()] == b,
    ensures
        first_index(c.subrange(i, c.len() as int), b) == w.len(),
{
    let r = c.subrange(i, c.len() as int);
    assert forall|q: int| 0 <= q < w.len() implies r[q] != b by {
        assert(r[q] == c.subrange(i, i + w.len())[q]);
        if r[q] == b {
            assert(w[q] == b);
        }
    }
    assert(r[w.len() as int] == c[i + w.len()]);
    lemma_first_index_is(r, b, w.len() as int);
}

/// Where `c` holds `e` at `i`, a part of `c` is that part of `e`.
proof fn lemma_sub_within(c: Seq<u8>, i: int, e: Seq<u8>, a: int, b: int)
    requires
        0 <= i,
        i + e.len() <= c.len(),
        c.subrange(i, i + e.len()) == e,
        0 <= a <= b <= e.len(),
    ensures
        c.subrange(i + a, i + b) == e.subrange(a, b),
{
    assert forall|q: int| 0 <= q < b - a implies #[trigger] c.subrange(i + a, i + b)[q] == e.subrange(a, b)[q] by {
        assert(c.subrange(i + a, i + b)[q] == c[i + a + q]);
        assert(c.subrange(i, i + e.len())[a + q] == c[i + a + q]);
    }
    assert(c.subrange(i + a, i + b) =~= e.subrange(a, b));
}

/// Reading bytes laid out as `mode 0x20 name 0x00 id` at `i`, where the
/// mode has no space, the name no NUL and the id 20 bytes, gives those
/// parts.
proof fn lemma_tree_step_parts(c: Seq<u8>, i: int, em: Seq<u8>, en: Seq<u8>, id: Seq<u8>)
    requires
        0 <= i,
        !em.contains(32u8),
        !en.contains(0u8),
        id.len() == 20,
        i + em.len() + en.len() + 22 <= c.len(),
        c.subrange(i, i + em.len() + en.len() + 22) == em + seq![32u8] + en + seq![0u8] + id,
    ensures
        tree_step(c, i) == Some((em, en, id, i + em.len() + en.len() + 22)),
{
    let e = em + seq![32u8] + en + seq![0u8] + id;
    let lm = em.len() as int;
    let ln = en.len() as int;
    assert(e.subrange(0, lm) =~= em);
    assert(e.subrange(lm + 1, lm + 1 + ln) =~= en);
    assert(e.subrange(lm + 2 + ln, lm + 22 + ln) =~= id);
    assert(e.subrange(lm, lm + 1 + ln) =~= seq![32u8] + en);
    lemma_sub_within(c, i, e, 0, lm);
    lemma_sub_within(c, i, e, lm + 1, lm + 1 + ln);
    lemma_sub_within(c, i, e, lm + 2 + ln, lm + 22 + ln);
    lemma_sub_within(c, i, e, lm, lm + 1 + ln);
    assert(c[i + lm] == c.subrange(i, i + e.len())[lm]);
    assert(c[i + lm + 1 + ln] == c.subrange(i, i + e.len())[lm + 1 + ln]);
    lemma_first_after(c, i, em, 32u8);
    let sp = i + lm;
    assert(!(seq![32u8] + en).contains(0u8)) by {
        if (seq![32u8] + en).contains(0u8) {
            let q = choose|q: int| 0 <= q < 1 + ln && (seq![32u8] + en)[q] == 0u8;
            assert(q > 0);
            assert(en[q - 1] == 0u8);
        }
    }
    lemma_first_after(c, sp, seq![32u8] + en, 0u8);
}

/// Reading one safe entry's bytes where they lie gives that entry.
proof fn lemma_tree_step_at(c: Seq<u8>, i: int, t: EntryText)
    requires
        entry_safe(t),
        0 <= i,
        i + entry_bytes(t).len() <= c.len(),
        forall|q: int| 0 <= q < entry_bytes(t).len() ==> c[i + q] == entry_bytes(t)[q],
    ensures
        tree_step(c, i) == Some(
            (encode_utf8(t.0), encode_utf8(t.1), hex_bytes(t.2), i + entry_bytes(t).len()),
        ),
{
    lemma_entry_bytes_layout(t);
    let e = entry_bytes(t);
    assert(c.subrange(i, i + e.len()) =~= e);
    lemma_tree_step_parts(c, i, encode_utf8(t.0), encode_utf8(t.1), hex_bytes(t.2));
}

/// Reading the bytes of sorted-or-not safe entries from the `k`-th entry on
/// gives those entries back.
proof fn lemma_tree_records_from(s: Seq<EntryText>, k: int)
    requires
        0 <= k <= s.len(),
        forall|i: int| 0 <= i < s.len() ==> entry_safe(#[trigger] s[i]),
    ensures
        tree_records(tree_bytes(s), tree_bytes(s.take(k)).len() as int) matches Some(recs) && recs.len()
            == s.len() - k && forall|j: int| 0 <= j < recs.len() ==> #[trigger] entry_text(recs[j])
            == s[k + j],
    decreases s.len() - k,
{
    let c = tree_bytes(s);
    let i = tree_bytes(s.take(k)).len() as int;
    lemma_tree_bytes_prefix(s, k);
    if k == s.len() {
        assert(s.take(k) =~= s);
    } else {
        lemma_tree_bytes_prefix(s, k + 1);
        assert(s.take(k + 1).drop_last() =~= s.take(k));
        let t = s[k];
        lemma_entry_bytes_layout(t);
        let em = encode_utf8(t.0);
        let en = encode_utf8(t.1);
        let id = hex_bytes(t.2);
        let e = entry_bytes(t);
        let next = tree_bytes(s.take(k + 1)).len() as int;
        assert(tree_bytes(s.take(k + 1)) == tree_bytes(s.take(k)) + e);
        assert(next == i + e.len());
        assert forall|q: int| 0 <= q < e.len() implies c[i + q] == e[q] by {
            assert(c[i + q] == tree_bytes(s.take(k + 1))[i + q]);
        }
        lemma_tree_step_at(c, i, t);
        lemma_tree_records_from(s, k + 1);
        let rest = tree_records(c, next)->0;
        assert(tree_records(c, i) == Some(seq![(em, en, id)] + rest));
        let recs = seq![(em, en, id)] + rest;
        assert forall|j: int| 0 <= j < recs.len() implies #[trigger] entry_text(recs[j]) == s[k + j] by {
            if j == 0 {
                assert(entry_text(recs[0]) == (lenient_utf8(em), lenient_utf8(en), hex_lower(id)));
                assert(t == (t.0, t.1, t.2));
            } else {
                assert(recs[j] == rest[j - 1]);
                assert(entry_text(rest[j - 1]) == s[k + 1 + (j - 1)]);
            }
        }
    }
}

/// A tree reads back as written: the bytes of safe entries, however
/// ordered, read back as those entries in that order.
pub proof fn lemma_tree_roundtrip(s: Seq<EntryText>)
    requires
        forall|i: int| 0 <= i < s.len() ==> entry_safe(#[trigger] s[i]),
    ensures
        tree_records(tree_bytes(s), 0) matches Some(recs) && recs.len() == s.len() && forall|j: int|
            0 <= j < recs.len() ==> #[trigger] entry_text(recs[j]) == s[j],
{
    assert(s.take(0) =~= Seq::<EntryText>::empty());
    lemma_tree_records_from(s, 0);
}

/// Writing items into a tree and reading the tree gives the items back,
/// sorted by name.
pub proof fn lemma_build_then_parse(items: Seq<EntryText>)
    requires
        forall|i: int| 0 <= i < items.len() ==> entry_safe(#[trigger] items[i]),
    ensures
        tree_records(tree_bytes(sort_by_name(items)), 0) matches Some(recs) && recs.len() == items.len()
            && forall|j: int| 0 <= j < recs.len() ==> #[trigger] entry_text(recs[j]) == sort_by_name(
            items,
        )[j],
{
    lemma_sort_by_name_perm(items);
    let sv = sort_by_name(items);
    assert forall|i: int| 0 <= i < sv.len() implies entry_safe(#[trigger] sv[i]) by {
        assert(sort_by_name(items).contains(sv[i]));
        let q = choose|q: int| 0 <= q < items.len() && items[q] == sv[i];
    }
    lemma_tree_roundtrip(sv);
}

/// The listing of entries that `cat-file` prints for a tree: one
/// `mode id name` line each.
pub open spec fn tree_listing(s: Seq<EntryText>) -> Seq<char>
    decreases s.len(),
{
    if s.len() == 0 {
        Seq::empty()
    } else {
        tree_listing(s.drop_last()) + s.last().0 + seq![' '] + s.last().2 + seq![' '] + s.last().1
            + seq!['\n']
    }
}

/// What `cat-file` prints for an object of type `t` with content `c`: the
/// content as text for blobs and commits, the listing of a tree (`None` when
/// the tree is cut short), and `<t object>` for anything else.
pub open spec fn cat_text(t: Seq<char>, c: Seq<u8>) -> Option<Seq<char>> {
    if t == "blob"@ || t == "commit"@ {
        Some(lenient_utf8(c))
    } else if t == "tree"@ {
        match tree_records(c, 0) {
            Some(recs) => Some(tree_listing(recs.map_values(|r: (Seq<u8>, Seq<u8>, Seq<u8>)| entry_text(r)))),
            None => None,
        }
    } else {
        Some("<"@ + t + " object>"@)
    }
}

/// Whether `s` is the text of the literal `lit`.
pub fn str_is(s: &str, lit: &str) -> (b: bool)
    ensures
        b == (s@ == lit@),
{
    let a = chars_of(s);
    let l = chars_of(lit);
    chars_equal(&a, &l)
}

/// The text `cat-file -p` shows for an object of type `obj_type` holding
/// `content`.
pub fn cat_file(obj_type: &str, content: &[u8]) -> (r: Option<String>)
    ensures
        r is Some <==> cat_text(obj_type@, content@) is Some,
        r matches Some(text) ==> text@ == cat_text(obj_type@, content@)->0,
{
    if str_is(obj_type, "blob") || str_is(obj_type, "commit") {
        return Some(utf8_lossy(content));
    }
    if str_is(obj_type, "tree") {
        let entries = match parse_tree(content) {
            Some(e) => e,
            None => {
                return None;
            },
        };
        let ghost recs = tree_records(content@, 0)->0;
        let ghost texts = recs.map_values(|r: (Seq<u8>, Seq<u8>, Seq<u8>)| entry_text(r));
        let mut out: Vec<char> = Vec::new();
        let mut k: usize = 0;
        while k < entries.len()
            invariant
                entries@.len() == texts.len(),
                texts == recs.map_values(|r: (Seq<u8>, Seq<u8>, Seq<u8>)| entry_text(r)),
                forall|q: int| 0 <= q < entries@.len() ==> #[trigger] entry_view(entries@[q]) == entry_text(recs[q]),
                k <= entries@.len(),
                out@ == tree_listing(texts.take(k as int)),
            decreases entries@.len() - k,
        {
            let e = &entries[k];
            append_str(&mut out, e.mode.as_str());
            out.push(' ');
            append_str(&mut out, e.id.as_str());
            out.push(' ');
            append_str(&mut out, e.name.as_str());
            out.push('\n');
            assert(texts.take(k + 1).drop_last() =~= texts.take(k as int));
            assert(texts[k as int] == entry_view(entries@[k as int]));
            k = k + 1;
        }
        assert(texts.take(texts.len() as int) =~= texts);
        return Some(string_of_all(&out));
    }
    let mut out: Vec<char> = Vec::new();
    append_str(&mut out, "<");
    append_str(&mut out, obj_type);
    append_str(&mut out, " object>");
    Some(string_of_all(&out))
}

/// The name-to-id map of entries, a later entry winning for a repeated name.
pub open spec fn entries_map(s: Seq<EntryText>) -> Map<Seq<char>, Seq<char>>
    decreases s.len(),
{
    if s.len() == 0 {
        Map::empty()
    } else {
        entries_map(s.drop_last()).insert(s.last().1, s.last().2)
    }
}

/// The files a tree lists directly: each entry's name mapped to its id.
pub fn tree_files(entries: &Vec<TreeEntry>) -> (m: StrMap)
    ensures
        m.wf(),
        m@ == entries_map(entries@.map_values(|e: TreeEntry| entry_view(e))),
{
    let ghost all = entries@.map_values(|e: TreeEntry| entry_view(e));
    let mut m = StrMap::new();
    let mut k: usize = 0;
    while k < entries.len()
        invariant
            all == entries@.map_values(|e: TreeEntry| entry_view(e)),
            k <= entries@.len(),
            m.wf(),
            m@ == entries_map(all.take(k as int)),
        decreases entries@.len() - k,
    {
        let name = chars_of(entries[k].name.as_str());
        let id = chars_of(entries[k].id.as_str());
        m.insert(name, id);
        assert(all.take(k + 1).drop_last() =~= all.take(k as int));
        k = k + 1;
    }
    assert(all.take(all.len() as int) =~= all);
    m
}

/// The mode a file is stored with: executable when any execute bit is set.
pub open spec fn file_mode_text(permission_bits: u32) -> Seq<char> {
    if permission_bits & 0o111u32 != 0 {
        "100755"@
    } else {
        "100644"@
    }
}

/// The mode a file with these permission bits is stored with.
pub fn file_mode(permission_bits: u32) -> (m: String)
    ensures
        m@ == file_mode_text(permission_bits),
{
    if permission_bits & 0o111u32 != 0 {
        String::from_str("100755")
    } else {
        String::from_str("100644")
    }
}

/// The permission bits a file restored with `mode` gets.
pub fn restored_permissions(mode: &str) -> (bits: u32)
    ensures
        bits == (if mode@ == "100755"@ {
            0o755u32
        } else {
            0o644u32
        }),
{
    if str_is(mode, "100755") {
        0o755
    } else {
        0o644
    }
}

/// Checks that an object restored as a directory is a tree.
pub fn expect_tree(obj_type: &str) -> (r: Result<(), Git5Error>)
    ensures
        r is Ok <==> obj_type@ == "tree"@,
        r matches Err(e) ==> (e matches Git5Error::InvalidObject(m) && m@ == "Expected tree object, got "@
            + obj_type@),
{
    if str_is(obj_type, "tree") {
        Ok(())
    } else {
        let mut m: Vec<char> = Vec::new();
        append_str(&mut m, "Expected tree object, got ");
        append_str(&mut m, obj_type);
        Err(Git5Error::InvalidObject(string_of_all(&m)))
    }
}

/// Whether an entry with `mode` is a subtree.
pub fn is_tree_mode(mode: &str) -> (b: bool)
    ensures
        b == (mode@ == "40000"@),
{
    str_is(mode, "40000")
}

/// Names that trees never record: `.git4`, `target` and hidden names.
pub open spec fn skipped_in_tree(name: Seq<char>) -> bool {
    name == ".git4"@ || name == "target"@ || (name.len() > 0 && name[0] == '.')
}

/// Whether a directory entry named `name` is left out of a tree.
pub fn is_skipped_in_tree(name: &str) -> (b: bool)
    ensures
        b == skipped_in_tree(name@),
{
    let v = chars_of(name);
    str_is(name, ".git4") || str_is(name, "target") || (v.len() > 0 && v[0] == '.')
}

/// Whether a directory entry named `name` is left out of the work-tree
/// listing: what trees leave out, and `git.sh`.
pub fn is_skipped_in_workspace(name: &str) -> (b: bool)
    ensures
        b == (skipped_in_tree(name@) || name@ == "git.sh"@),
{
    is_skipped_in_tree(name) || str_is(name, "git.sh")
}

/// The tree items `mktree` makes of the index: every path as a regular file.
pub open spec fn index_items(p: Seq<(Seq<char>, Seq<char>)>) -> Seq<EntryText> {
    p.map_values(|e: (Seq<char>, Seq<char>)| ("100644"@, e.0, e.1))
}

/// The content of the tree `mktree` makes of the index.
pub fn mktree_content(index: &StrMap) -> (r: Result<Vec<u8>, Git5Error>)
    ensures
        r is Ok <==> ids_valid(index_items(index.pairs())),
        r matches Ok(b) ==> b@ == tree_bytes(sort_by_name(index_items(index.pairs()))),
        r matches Err(e) ==> (e matches Git5Error::ParseError(m) && m@ == "Invalid hex: "@ + hex_error_of(
            first_bad_id(sort_by_name(index_items(index.pairs()))),
        )),
{
    let mut items: Vec<TreeItem> = Vec::new();
    let mut k: usize = 0;
    while k < index.len()
        invariant
            k <= index.pairs().len(),
            items_view(items@) == index_items(index.pairs()).take(k as int),
        decreases index.pairs().len() - k,
    {
        let item = TreeItem {
            mode: String::from_str("100644"),
            name: string_of_all(index.key_at(k)),
            id: string_of_all(index.value_at(k)),
        };
        let ghost old_items = items@;
        items.push(item);
        assert(items_view(items@) =~= items_view(old_items).push(item_view(item)));
        assert(index_items(index.pairs()).take(k + 1) =~= index_items(index.pairs()).take(k as int).push(
            item_view(item),
        ));
        k = k + 1;
    }
    assert(index_items(index.pairs()).take(index.pairs().len() as int) =~= index_items(index.pairs()));
    build_tree(items)
}

/// Names in order: no name comes after a greater one.
pub open spec fn names_sorted(s: Seq<EntryText>) -> bool {
    forall|i: int, j: int| 0 <= i < j < s.len() ==> !chars_lt(#[trigger] s[j].1, #[trigger] s[i].1)
}

proof fn lemma_le_trans(a: Seq<char>, b: Seq<char>, c: Seq<char>)
    requires
        !chars_lt(b, a),
        !chars_lt(c, b),
    ensures
        !chars_lt(c, a),
{
    lemma_chars_lt_total(a, b);
    lemma_chars_lt_total(b, c);
    if chars_lt(c, a) {
        if a != b && b != c {
            lemma_chars_lt_transitive(a, b, c);
            lemma_chars_lt_asymmetric(a, c);
        }
    }
}

proof fn lemma_insert_by_name_sorted(s: Seq<EntryText>, x: EntryText)
    requires
        names_sorted(s),
    ensures
        names_sorted(insert_by_name(s, x)),
    decreases s.len(),
{
    if s.len() == 0 {
    } else if chars_lt(x.1, s.last().1) {
        let t = s.drop_last();
        assert(names_sorted(t)) by {
            assert forall|i: int, j: int| 0 <= i < j < t.len() implies !chars_lt(#[trigger] t[j].1, #[trigger] t[i].1) by {
                assert(t[i] == s[i] && t[j] == s[j]);
            }
        }
        lemma_insert_by_name_sorted(t, x);
        lemma_insert_by_name_contains(t, x);
        let r = insert_by_name(t, x);
        let last = s.last();
        assert forall|i: int| 0 <= i < r.len() implies !chars_lt(last.1, #[trigger] r[i].1) by {
            assert(r.contains(r[i]));
            if r[i] == x {
                lemma_chars_lt_asymmetric(x.1, last.1);
            } else {
                assert(t.contains(r[i]));
                let q = choose|q: int| 0 <= q < t.len() && t[q] == r[i];
                assert(s[q] == t[q]);
                assert(!chars_lt(s[s.len() - 1].1, s[q].1));
            }
        }
        let w = r.push(last);
        assert forall|i: int, j: int| 0 <= i < j < w.len() implies !chars_lt(#[trigger] w[j].1, #[trigger] w[i].1) by {
            if j == w.len() - 1 {
                assert(w[j] == last);
                assert(w[i] == r[i]);
            } else {
                assert(w[i] == r[i] && w[j] == r[j]);
            }
        }
    } else {
        let last = s.last();
        lemma_chars_lt_total(x.1, last.1);
        let w = s.push(x);
        assert forall|i: int, j: int| 0 <= i < j < w.len() implies !chars_lt(#[trigger] w[j].1, #[trigger] w[i].1) by {
            if j == w.len() - 1 {
                assert(w[i] == s[i]);
                if i < s.len() - 1 {
                    assert(!chars_lt(s[s.len() - 1].1, s[i].1));
                    lemma_le_trans(s[i].1, last.1, x.1);
                } else {
                    assert(!chars_lt(x.1, last.1));
                }
            } else {
                assert(w[i] == s[i] && w[j] == s[j]);
            }
        }
    }
}

/// Trees list their entries in name order: sorting by name leaves no name
/// after a greater one.
pub proof fn lemma_sort_by_name_sorted(s: Seq<EntryText>)
    ensures
        names_sorted(sort_by_name(s)),
    decreases s.len(),
{
    if s.len() > 0 {
        lemma_sort_by_name_sorted(s.drop_last());
        lemma_insert_by_name_sorted(sort_by_name(s.drop_last()), s.last());
    }
}

/// The line `ls-tree` shows for an entry: `mode id name`, a tab, the name.
pub fn ls_tree_line(e: &TreeEntry) -> (s: String)
    ensures
        s@ == e.mode@ + seq![' '] + e.id@ + seq![' '] + e.name@ + seq!['\t'] + e.name@,
{
    let mut v: Vec<char> = Vec::new();
    append_str(&mut v, e.mode.as_str());
    v.push(' ');
    append_str(&mut v, e.id.as_str());
    v.push(' ');
    append_str(&mut v, e.name.as_str());
    v.push('\t');
    append_str(&mut v, e.name.as_str());
    string_of_all(&v)
}

} // verus!
