//! Line differences between a staged or committed file and the work tree.
use vstd::prelude::*;
use vstd::string::*;
use crate::text::{append_str, chars_of, chars_equal, string_of_all};
use crate::codec::{lenient_utf8, utf8_lossy};
use crate::strmap::StrMap;
use crate::tree::str_is;

verus! {

/// The changes `similar::TextDiff::from_lines` finds between two texts, in
/// order: a tag (0 removed, 1 added, 2 unchanged) and the line as the change
/// displays it (with a line break added where the line had none).
pub uninterp spec fn line_changes(old: Seq<char>, new: Seq<char>) -> Seq<(u8, Seq<char>)>;

/// `similar::TextDiff::from_lines(old, new).iter_all_changes()`, each change
/// taken as its tag and its displayed text: `line_changes(old, new)`.
#[verifier::external_body]
fn diff_lines(old: &str, new: &str) -> (r: Vec<(u8, String)>)
    ensures
        r@.map_values(|c: (u8, String)| (c.0, c.1@)) == line_changes(old@, new@),
{
    similar::TextDiff::from_lines(old, new)
        .iter_all_changes()
        .map(|c| (match c.tag() {
            similar::ChangeTag::Delete => 0u8,
            similar::ChangeTag::Insert => 1u8,
            similar::ChangeTag::Equal => 2u8,
        }, c.to_string()))
        .collect()
}

/// The sign shown before a change of tag `t`.
pub open spec fn change_sign(t: u8) -> char {
    if t == 0 {
        '-'
    } else if t == 1 {
        '+'
    } else {
        ' '
    }
}

/// The changes shown one after the other, each after its sign.
pub open spec fn changes_text(cs: Seq<(u8, Seq<char>)>) -> Seq<char>
    decreases cs.len(),
{
    if cs.len() == 0 {
        Seq::empty()
    } else {
        changes_text(cs.drop_last()) + seq![change_sign(cs.last().0)] + cs.last().1
    }
}

/// What `diff` shows between a file's recorded text and its current text:
/// nothing when they are equal, else every line change after its sign.
pub open spec fn diff_output(old: Seq<char>, new: Seq<char>) -> Seq<char> {
    if old == new {
        Seq::empty()
    } else {
        changes_text(line_changes(old, new))
    }
}

/// The text `diff` shows between `old` and `new`.
pub fn diff_text(old: &str, new: &str) -> (s: String)
    ensures
        s@ == diff_output(old@, new@),
{
    if chars_equal(&chars_of(old), &chars_of(new)) {
        return String::new();
    }
    let changes = diff_lines(old, new);
    let ghost cs = changes@.map_values(|c: (u8, String)| (c.0, c.1@));
    let mut out: Vec<char> = Vec::new();
    let mut k: usize = 0;
    while k < changes.len()
        invariant
            cs == changes@.map_values(|c: (u8, String)| (c.0, c.1@)),
            k <= changes@.len(),
            out@ == changes_text(cs.take(k as int)),
        decreases changes@.len() - k,
    {
        let t = changes[k].0;
        let sign = if t == 0 {
            '-'
        } else if t == 1 {
            '+'
        } else {
            ' '
        };
        out.push(sign);
        append_str(&mut out, changes[k].1.as_str());
        assert(cs.take(k + 1).drop_last() =~= cs.take(k as int));
        assert(cs[k as int] == (t, changes@[k as int].1@));
        k = k + 1;
    }
    assert(cs.take(cs.len() as int) =~= cs);
    string_of_all(&out)
}

/// The blob a file's difference is taken against: its index entry, else its
/// entry in HEAD's tree, else none.
pub fn diff_base(index: &StrMap, head: &StrMap, file: &str) -> (r: Option<String>)
    requires
        index.wf(),
        head.wf(),
    ensures
        index@.dom().contains(file@) ==> (r matches Some(h) && h@ == index@[file@]),
        !index@.dom().contains(file@) && head@.dom().contains(file@) ==> (r matches Some(h) && h@
            == head@[file@]),
        !index@.dom().contains(file@) && !head@.dom().contains(file@) ==> r is None,
{
    match index.get_str(file) {
        Some(h) => Some(h),
        None => head.get_str(file),
    }
}

/// The text a file's difference is taken against, from the object it is
/// recorded as: a blob's content read leniently as UTF-8, or nothing for any
/// other object.
pub fn diff_base_text(obj_type: &str, content: &[u8]) -> (s: String)
    ensures
        s@ == (if obj_type@ == "blob"@ {
            lenient_utf8(content@)
        } else {
            Seq::empty()
        }),
{
    if str_is(obj_type, "blob") {
        utf8_lossy(content)
    } else {
        String::new()
    }
}

} // verus!
