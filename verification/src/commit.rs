//! HEAD and refs, commit objects, and walking first parents.
use vstd::prelude::*;
use vstd::string::*;
use vstd::utf8::encode_utf8;
use crate::error::Git5Error;
use crate::codec::{lenient_utf8, utf8_lossy, zlib_of, unzlib_of};
use crate::object::{PreparedObject, prepare_object, object_id, object_store, decode_object, read_back};
use crate::text::{
    lines, trim, chars_of, line_ranges, trim_range, has_prefix, string_of, string_of_all,
    append_chars, append_str, signed_decimal, signed_decimal_of, chars_equal, is_ws,
    lemma_trim_newline, lemma_trim_fixed, lemma_trimmed_ends, lemma_lines_append, lemma_lines_single,
    decimal, lemma_decimal_digits,
};
use crate::tree::str_is;

verus! {

broadcast use vstd::string::group_string_axioms;

/// What HEAD points at.
pub enum HeadRef {
    /// A ref path such as `refs/heads/main`.
    Symbolic(String),
    /// A commit id.
    Detached(String),
}

/// The first line of `ls` that starts with `prefix`, without the prefix.
pub open spec fn prefixed_line(ls: Seq<Seq<char>>, prefix: Seq<char>) -> Option<Seq<char>>
    decreases ls.len(),
{
    if ls.len() == 0 {
        None
    } else if prefix.is_prefix_of(ls[0]) {
        Some(ls[0].skip(prefix.len() as int))
    } else {
        prefixed_line(ls.drop_first(), prefix)
    }
}

/// The header lines of a text's lines: those before the first empty line.
pub open spec fn header_lines(ls: Seq<Seq<char>>) -> Seq<Seq<char>>
    decreases ls.len(),
{
    if ls.len() == 0 || ls[0].len() == 0 {
        Seq::empty()
    } else {
        seq![ls[0]] + header_lines(ls.drop_first())
    }
}

/// The rest of the first header line of `text` (before the first empty
/// line) that starts with `prefix`.
pub fn find_header_line(text: &str, prefix: &str) -> (r: Option<String>)
    ensures
        r is Some <==> prefixed_line(header_lines(lines(text@)), prefix@) is Some,
        r matches Some(s) ==> s@ == prefixed_line(header_lines(lines(text@)), prefix@)->0,
{
    let v = chars_of(text);
    let p = chars_of(prefix);
    let ranges = line_ranges(&v);
    let ghost ls = lines(v@);
    let mut k: usize = 0;
    assert(ls.skip(0) =~= ls);
    while k < ranges.len()
        invariant
            v@ == text@,
            p@ == prefix@,
            ls == lines(v@),
            ranges@.len() == ls.len(),
            forall|q: int|
                #![trigger ranges@[q]]
                0 <= q < ranges@.len() ==> {
                    &&& ranges@[q].0 <= ranges@[q].1 <= v@.len()
                    &&& ls[q] == v@.subrange(ranges@[q].0 as int, ranges@[q].1 as int)
                },
            k <= ranges@.len(),
            prefixed_line(header_lines(ls), p@) == prefixed_line(header_lines(ls.skip(k as int)), p@),
        decreases ranges@.len() - k,
    {
        let (a, b) = ranges[k];
        assert(ls.skip(k as int)[0] == ls[k as int]);
        assert(ls.skip(k as int).drop_first() =~= ls.skip(k + 1));
        if a == b {
            assert(header_lines(ls.skip(k as int)) =~= Seq::<Seq<char>>::empty());
            return None;
        }
        assert(header_lines(ls.skip(k as int)) == seq![ls[k as int]] + header_lines(ls.skip(k + 1)));
        assert((seq![ls[k as int]] + header_lines(ls.skip(k + 1)))[0] == ls[k as int]);
        assert((seq![ls[k as int]] + header_lines(ls.skip(k + 1))).drop_first() =~= header_lines(ls.skip(k + 1)));
        if has_prefix(&v, a, b, &p) {
            let s = string_of(&v, a + p.len(), b);
            assert(s@ =~= ls[k as int].skip(p@.len() as int));
            return Some(s);
        }
        k = k + 1;
    }
    assert(header_lines(ls.skip(k as int)) =~= Seq::<Seq<char>>::empty());
    None
}

/// What a HEAD file's text points at: after trimming, `ref: ` and a trimmed
/// ref path, or else a commit id.
pub open spec fn head_target(content: Seq<char>) -> (bool, Seq<char>) {
    let t = trim(content);
    if "ref: "@.is_prefix_of(t) {
        (true, trim(t.skip(5)))
    } else {
        (false, t)
    }
}

/// Reads what a HEAD file points at.
pub fn parse_head(content: &str) -> (r: HeadRef)
    ensures
        r matches HeadRef::Symbolic(p) ==> head_target(content@) == (true, p@),
        r matches HeadRef::Detached(h) ==> head_target(content@) == (false, h@),
{
    proof {
        reveal_strlit("ref: ");
    }
    let v = chars_of(content);
    let (a, b) = trim_range(&v, 0, v.len());
    assert(v@.subrange(0, v@.len() as int) =~= v@);
    let pre = chars_of("ref: ");
    if has_prefix(&v, a, b, &pre) {
        let (c, d) = trim_range(&v, a + 5, b);
        assert(v@.subrange(a + 5, b as int) =~= v@.subrange(a as int, b as int).skip(5));
        HeadRef::Symbolic(string_of(&v, c, d))
    } else {
        HeadRef::Detached(string_of(&v, a, b))
    }
}

/// The branch a HEAD file names: the trimmed text after `ref: refs/heads/`
/// at its very start, or empty when it does not start so.
pub open spec fn head_branch(content: Seq<char>) -> Seq<char> {
    if "ref: refs/heads/"@.is_prefix_of(content) {
        trim(content.skip(16))
    } else {
        Seq::empty()
    }
}

/// The current branch's name from the HEAD file's text (empty when HEAD is
/// detached).
pub fn current_branch(content: &str) -> (b: String)
    ensures
        b@ == head_branch(content@),
{
    proof {
        reveal_strlit("ref: refs/heads/");
    }
    let v = chars_of(content);
    let pre = chars_of("ref: refs/heads/");
    if has_prefix(&v, 0, v.len(), &pre) {
        assert(v@.subrange(0, v@.len() as int) =~= v@);
        let (c, d) = trim_range(&v, 16, v.len());
        assert(v@.subrange(16, v@.len() as int) =~= v@.skip(16));
        string_of(&v, c, d)
    } else {
        assert(v@.subrange(0, v@.len() as int) =~= v@);
        String::new()
    }
}

/// What a clone checks out for a HEAD file's text: the branch after
/// `ref: refs/heads/` in the trimmed text, or else the trimmed text.
pub open spec fn clone_checkout_name(content: Seq<char>) -> Seq<char> {
    let t = trim(content);
    if "ref: refs/heads/"@.is_prefix_of(t) {
        t.skip(16)
    } else {
        t
    }
}

/// The name a clone checks out, from the HEAD file's text.
pub fn checkout_name_of_head(content: &str) -> (n: String)
    ensures
        n@ == clone_checkout_name(content@),
{
    proof {
        reveal_strlit("ref: refs/heads/");
    }
    let v = chars_of(content);
    let (a, b) = trim_range(&v, 0, v.len());
    assert(v@.subrange(0, v@.len() as int) =~= v@);
    let pre = chars_of("ref: refs/heads/");
    if has_prefix(&v, a, b, &pre) {
        assert(v@.subrange(a + 16, b as int) =~= v@.subrange(a as int, b as int).skip(16));
        string_of(&v, a + 16, b)
    } else {
        string_of(&v, a, b)
    }
}

/// The text of a ref file: the id and a line break.
pub fn ref_file_text(hash: &str) -> (s: String)
    ensures
        s@ == hash@.push('\n'),
{
    let mut v = chars_of(hash);
    v.push('\n');
    string_of_all(&v)
}

/// The text of a HEAD file that points at branch `name`.
pub fn branch_head_text(name: &str) -> (s: String)
    ensures
        s@ == "ref: refs/heads/"@ + name@ + seq!['\n'],
{
    let mut v: Vec<char> = Vec::new();
    append_str(&mut v, "ref: refs/heads/");
    append_str(&mut v, name);
    v.push('\n');
    string_of_all(&v)
}

/// A ref file reads back as the id written into it: for an id without
/// surrounding white space, the text `ref_file_text` writes is read back as
/// that id by `ref_file_hash`, and by `resolve_revision` as a branch file.
pub proof fn lemma_ref_file_roundtrip(h: Seq<char>)
    requires
        trim(h) == h,
    ensures
        trim(h.push('\n')) == h,
{
    lemma_trim_newline(h);
}

/// HEAD reads back as the branch it was pointed at: for a branch name
/// without surrounding white space, the text `branch_head_text` writes names
/// that branch to `current_branch`, and the ref `refs/heads/<name>` to
/// `parse_head`.
pub proof fn lemma_branch_head_roundtrip(name: Seq<char>)
    requires
        trim(name) == name,
    ensures
        head_branch("ref: refs/heads/"@ + name + seq!['\n']) == name,
        head_target("ref: refs/heads/"@ + name + seq!['\n']) == (true, "refs/heads/"@ + name),
{
    reveal_strlit("ref: refs/heads/");
    reveal_strlit("ref: ");
    reveal_strlit("refs/heads/");
    let pre = "ref: refs/heads/"@;
    let content = pre + name + seq!['\n'];
    let x = pre + name;
    assert(content == x.push('\n'));
    lemma_trimmed_ends(name);
    assert(pre.is_prefix_of(content)) by {
        assert(content.subrange(0, 16) =~= pre);
    }
    assert(content.skip(16) =~= name.push('\n'));
    lemma_trim_newline(name);
    assert(!is_ws('r'));
    assert(!is_ws('/'));
    assert(x[0] == 'r');
    if name.len() > 0 {
        assert(x.last() == name.last());
    } else {
        assert(x.last() == '/');
    }
    lemma_trim_fixed(x);
    lemma_trim_newline(x);
    assert("ref: "@.is_prefix_of(x)) by {
        assert(x.subrange(0, 5) =~= "ref: "@);
    }
    let y = x.skip(5);
    assert(y =~= "refs/heads/"@ + name);
    assert(y[0] == 'r');
    if name.len() > 0 {
        assert(y.last() == name.last());
    } else {
        assert(y.last() == '/');
    }
    lemma_trim_fixed(y);
}

/// The author and committer of every commit.
pub open spec fn commit_author() -> Seq<char> {
    "git4 User <git4@example.com>"@
}

/// The text of a commit of `tree` with an optional `parent` and `message`,
/// made at `timestamp` (seconds since the epoch, UTC).
pub open spec fn commit_text(
    tree: Seq<char>,
    parent: Option<Seq<char>>,
    message: Seq<char>,
    timestamp: int,
) -> Seq<char> {
    let who = commit_author() + seq![' '] + signed_decimal(timestamp) + " +0000"@ + seq!['\n'];
    "tree "@ + tree + seq!['\n'] + (match parent {
        Some(p) => "parent "@ + p + seq!['\n'],
        None => Seq::empty(),
    }) + "author "@ + who + "committer "@ + who + seq!['\n'] + message + seq!['\n']
}

/// The text of an optional string.
pub open spec fn opt_text(o: Option<&str>) -> Option<Seq<char>> {
    match o {
        Some(s) => Some(s@),
        None => None,
    }
}

/// The text of a commit made at `timestamp`.
pub fn commit_text_at(tree: &str, parent: Option<&str>, message: &str, timestamp: i64) -> (s: String)
    ensures
        s@ == commit_text(tree@, opt_text(parent), message@, timestamp as int),
{
    let mut who: Vec<char> = Vec::new();
    append_str(&mut who, "git4 User <git4@example.com>");
    who.push(' ');
    let ts = signed_decimal_of(timestamp);
    append_chars(&mut who, &ts);
    append_str(&mut who, " +0000");
    who.push('\n');
    let mut v: Vec<char> = Vec::new();
    append_str(&mut v, "tree ");
    append_str(&mut v, tree);
    v.push('\n');
    let ghost before_parent = v@;
    match parent {
        Some(p) => {
            append_str(&mut v, "parent ");
            append_str(&mut v, p);
            v.push('\n');
        },
        None => {},
    }
    append_str(&mut v, "author ");
    append_chars(&mut v, &who);
    append_str(&mut v, "committer ");
    append_chars(&mut v, &who);
    v.push('\n');
    append_str(&mut v, message);
    v.push('\n');
    assert(v@ =~= commit_text(tree@, opt_text(parent), message@, timestamp as int));
    string_of_all(&v)
}

#[verifier::external_type_specification]
#[verifier::external_body]
pub struct ExSystemTime(std::time::SystemTime);

/// `std::time::SystemTime::now`: the current time of the system clock.
/// Nothing is stated of its value.
#[verifier::external_body]
fn system_now() -> std::time::SystemTime {
    std::time::SystemTime::now()
}

/// `SystemTime::duration_since(UNIX_EPOCH)`: the time since the epoch, or
/// `None` when `t` lies before it. Nothing is stated of the duration.
#[verifier::external_body]
fn since_epoch(t: &std::time::SystemTime) -> Option<std::time::Duration> {
    t.duration_since(std::time::UNIX_EPOCH).ok()
}

/// `Duration::as_secs`: the whole seconds of a duration. Nothing is stated
/// of the value.
#[verifier::external_body]
fn duration_secs(d: &std::time::Duration) -> u64 {
    d.as_secs()
}

/// The stored bytes of the commit `commit_text` describes.
pub open spec fn commit_store(tree: Seq<char>, parent: Option<Seq<char>>, message: Seq<char>, ts: int) -> Seq<u8> {
    object_store("commit"@, encode_utf8(commit_text(tree, parent, message, ts)))
}

/// The commit object of `tree` with an optional `parent` and `message`,
/// made at `timestamp`: named and compressed as a loose object.
pub fn commit_object_at(tree: &str, parent: Option<&str>, message: &str, timestamp: i64) -> (p: PreparedObject)
    ensures
        p.id@ == object_id(commit_store(tree@, opt_text(parent), message@, timestamp as int)),
        p.compressed@ == zlib_of(commit_store(tree@, opt_text(parent), message@, timestamp as int)),
        unzlib_of(p.compressed@) == Some(commit_store(tree@, opt_text(parent), message@, timestamp as int)),
{
    let text = commit_text_at(tree, parent, message, timestamp);
    match prepare_object("commit", text.as_str().as_bytes()) {
        Ok(p) => p,
        Err(_) => PreparedObject { id: String::new(), compressed: Vec::new() },
    }
}

/// The commit of `tree` with an optional `parent` and `message`, dated by a
/// clock reading of `secs` seconds since the epoch (`None` for a reading
/// before it): an error when there is no reading or it does not fit a
/// 64-bit signed count, else the commit `commit_object_at` makes at that
/// time.
pub fn commit_at_seconds(tree: &str, parent: Option<&str>, message: &str, secs: Option<u64>) -> (r: Result<PreparedObject, Git5Error>)
    ensures
        r is Err <==> (secs is None || secs->0 > i64::MAX),
        r matches Err(e) ==> e matches Git5Error::IoError(m) && m@ == "System time is out of range"@,
        r matches Ok(p) ==> {
            let ts = secs->0 as int;
            &&& p.id@ == object_id(commit_store(tree@, opt_text(parent), message@, ts))
            &&& p.compressed@ == zlib_of(commit_store(tree@, opt_text(parent), message@, ts))
            &&& unzlib_of(p.compressed@) == Some(commit_store(tree@, opt_text(parent), message@, ts))
        },
{
    match secs {
        None => Err(Git5Error::IoError(String::from_str("System time is out of range"))),
        Some(s) => {
            if s > 0x7fff_ffff_ffff_ffffu64 {
                Err(Git5Error::IoError(String::from_str("System time is out of range")))
            } else {
                Ok(commit_object_at(tree, parent, message, s as i64))
            }
        },
    }
}

/// Makes a commit object of `tree` with an optional `parent` and `message`,
/// dated by the system clock: what `commit_at_seconds` gives for the clock's
/// reading in seconds since the epoch.
pub fn commit_tree(tree: &str, parent: Option<&str>, message: &str) -> (r: Result<PreparedObject, Git5Error>)
    ensures
        r matches Ok(p) ==> exists|ts: int|
            #![trigger commit_store(tree@, opt_text(parent), message@, ts)]
            0 <= ts && p.id@ == object_id(commit_store(tree@, opt_text(parent), message@, ts))
                && p.compressed@ == zlib_of(commit_store(tree@, opt_text(parent), message@, ts))
                && unzlib_of(p.compressed@) == Some(commit_store(tree@, opt_text(parent), message@, ts)),
        r matches Err(e) ==> e matches Git5Error::IoError(m) && m@ == "System time is out of range"@,
{
    let now = system_now();
    let secs = match since_epoch(&now) {
        Some(d) => Some(duration_secs(&d)),
        None => None,
    };
    let r = commit_at_seconds(tree, parent, message, secs);
    r
}

/// The parent a commit's content names: the rest of its first header line
/// (before the empty line that starts the message) that starts with
/// `parent `.
pub open spec fn commit_parent_of(content: Seq<u8>) -> Option<Seq<char>> {
    prefixed_line(header_lines(lines(lenient_utf8(content))), "parent "@)
}

/// The tree a commit's content names: the rest of its first header line that
/// starts with `tree `.
pub open spec fn commit_tree_of(content: Seq<u8>) -> Option<Seq<char>> {
    prefixed_line(header_lines(lines(lenient_utf8(content))), "tree "@)
}

/// The first parent named in a commit's content.
pub fn commit_parent(content: &[u8]) -> (r: Option<String>)
    ensures
        r is Some <==> commit_parent_of(content@) is Some,
        r matches Some(p) ==> p@ == commit_parent_of(content@)->0,
{
    let text = utf8_lossy(content);
    find_header_line(text.as_str(), "parent ")
}

/// The tree named in a commit's content.
pub fn commit_tree_hash(content: &[u8]) -> (r: Option<String>)
    ensures
        r is Some <==> commit_tree_of(content@) is Some,
        r matches Some(t) ==> t@ == commit_tree_of(content@)->0,
{
    let text = utf8_lossy(content);
    find_header_line(text.as_str(), "tree ")
}

/// The parent of the commit in an object file's bytes: `None` for an
/// object that is not a commit or names no parent; the reading error when
/// the file cannot be read as an object.
pub fn get_commit_parent(object_file: &[u8]) -> (r: Result<Option<String>, Git5Error>)
    ensures
        r is Ok <==> read_back(object_file@) is Some,
        read_back(object_file@) matches Some((t, c)) ==> (r matches Ok(p) && (if t == "commit"@ {
            p is Some == commit_parent_of(c) is Some && (p matches Some(x) ==> x@
                == commit_parent_of(c)->0)
        } else {
            p is None
        })),
{
    let (obj_type, content) = decode_object(object_file)?;
    if str_is(obj_type.as_str(), "commit") {
        Ok(commit_parent(content.as_slice()))
    } else {
        Ok(None)
    }
}

/// One step of walking first parents to find an ancestor.
pub enum AncestorStep {
    /// The walk is over: whether the ancestor was met.
    Done(bool),
    /// Read the commit with this id and step again with its parent.
    ReadParentOf(String),
}

/// Whether `ancestor` lies on the first-parent chain from the commit a walk
/// has reached (`current`): met when they are equal, not met when the chain
/// has ended, and otherwise the walk goes on to `current`'s parent.
pub fn is_ancestor(ancestor: &str, current: Option<&str>) -> (r: AncestorStep)
    ensures
        current is None ==> r == AncestorStep::Done(false),
        current matches Some(c) ==> (if c@ == ancestor@ {
            r == AncestorStep::Done(true)
        } else {
            r matches AncestorStep::ReadParentOf(h) && h@ == c@
        }),
{
    match current {
        None => AncestorStep::Done(false),
        Some(c) => {
            let a = chars_of(ancestor);
            let cv = chars_of(c);
            if chars_equal(&a, &cv) {
                AncestorStep::Done(true)
            } else {
                AncestorStep::ReadParentOf(string_of_all(&cv))
            }
        },
    }
}

/// Where reading a commit for `log` stands: inside the message or not, the
/// last parent seen, and the text shown so far.
pub type LogState = (bool, Option<Seq<char>>, Seq<char>);

/// One line of a commit read for `log`: message lines are indented by four
/// spaces, the empty line starting the message shows as an empty line,
/// `parent ` lines are noted, `author ` and `committer ` lines are shown, and
/// other header lines are skipped.
pub open spec fn log_step(st: LogState, line: Seq<char>) -> LogState {
    if st.0 {
        (true, st.1, st.2 + "    "@ + line + seq!['\n'])
    } else if line.len() == 0 {
        (true, st.1, st.2 + seq!['\n'])
    } else if "parent "@.is_prefix_of(line) {
        (false, Some(line.skip(7)), st.2)
    } else if "author "@.is_prefix_of(line) || "committer "@.is_prefix_of(line) {
        (false, st.1, st.2 + line + seq!['\n'])
    } else {
        st
    }
}

/// The state after reading all of `ls`.
pub open spec fn log_fold(ls: Seq<Seq<char>>) -> LogState
    decreases ls.len(),
{
    if ls.len() == 0 {
        (false, None, Seq::empty())
    } else {
        log_step(log_fold(ls.drop_last()), ls.last())
    }
}

/// What `log` shows of one commit, and the parent it goes on to.
pub struct LogEntry {
    pub text: String,
    pub parent: Option<String>,
}

/// What `log` shows for the commit `hash` with `content`: a `commit` line,
/// the shown lines, and two line breaks; and the last parent the commit
/// names.
pub fn log_entry(hash: &str, content: &[u8]) -> (e: LogEntry)
    ensures
        e.text@ == "commit "@ + hash@ + seq!['\n'] + log_fold(lines(lenient_utf8(content@))).2
            + seq!['\n', '\n'],
        e.parent is Some <==> log_fold(lines(lenient_utf8(content@))).1 is Some,
        e.parent matches Some(p) ==> p@ == log_fold(lines(lenient_utf8(content@))).1->0,
{
    proof {
        reveal_strlit("parent ");
        reveal_strlit("author ");
        reveal_strlit("committer ");
    }
    let text = utf8_lossy(content);
    let v = chars_of(text.as_str());
    let ranges = line_ranges(&v);
    let ghost ls = lines(v@);
    let p_parent = chars_of("parent ");
    let p_author = chars_of("author ");
    let p_committer = chars_of("committer ");
    let mut is_msg = false;
    let mut parent: Option<Vec<char>> = None;
    let mut out: Vec<char> = Vec::new();
    append_str(&mut out, "commit ");
    append_str(&mut out, hash);
    out.push('\n');
    let ghost head = out@;
    let mut k: usize = 0;
    while k < ranges.len()
        invariant
            ls == lines(v@),
            p_parent@ == "parent "@,
            p_author@ == "author "@,
            p_committer@ == "committer "@,
            "parent "@.len() == 7,
            ranges@.len() == ls.len(),
            forall|q: int|
                #![trigger ranges@[q]]
                0 <= q < ranges@.len() ==> {
                    &&& ranges@[q].0 <= ranges@[q].1 <= v@.len()
                    &&& ls[q] == v@.subrange(ranges@[q].0 as int, ranges@[q].1 as int)
                },
            k <= ranges@.len(),
            ({
                let st = log_fold(ls.take(k as int));
                &&& st.0 == is_msg
                &&& st.1 is Some == parent is Some
                &&& parent matches Some(pv) ==> st.1->0 == pv@
                &&& out@ == head + st.2
            }),
        decreases ranges@.len() - k,
    {
        let (a, b) = ranges[k];
        let ghost line = ls[k as int];
        assert(ls.take(k + 1).drop_last() =~= ls.take(k as int));
        assert(ls.take(k + 1).last() == line);
        let ghost before = out@;
        if is_msg {
            append_str(&mut out, "    ");
            let seg = crate::text::sub_vec(&v, a, b);
            append_chars(&mut out, &seg);
            out.push('\n');
            assert(out@ =~= before + "    "@ + line + seq!['\n']);
        } else if a == b {
            is_msg = true;
            out.push('\n');
        } else if has_prefix(&v, a, b, &p_parent) {
            parent = Some(crate::text::sub_vec(&v, a + 7, b));
            assert(v@.subrange(a + 7, b as int) =~= line.skip(7));
        } else if has_prefix(&v, a, b, &p_author) || has_prefix(&v, a, b, &p_committer) {
            let seg = crate::text::sub_vec(&v, a, b);
            append_chars(&mut out, &seg);
            out.push('\n');
            assert(out@ =~= before + line + seq!['\n']);
        }
        k = k + 1;
    }
    assert(ls.take(ranges@.len() as int) =~= ls);
    out.push('\n');
    out.push('\n');
    let text_out = string_of_all(&out);
    let parent_out = match parent {
        Some(pv) => Some(string_of_all(&pv)),
        None => None,
    };
    LogEntry { text: text_out, parent: parent_out }
}

/// The first parent named in a commit's content, trimmed (as `rev-list`
/// reads it).
pub fn first_parent_trimmed(content: &[u8]) -> (r: Option<String>)
    ensures
        r is Some <==> commit_parent_of(content@) is Some,
        r matches Some(p) ==> p@ == trim(commit_parent_of(content@)->0),
{
    match commit_parent(content) {
        Some(p) => {
            let v = chars_of(p.as_str());
            let (a, b) = trim_range(&v, 0, v.len());
            assert(v@.subrange(0, v@.len() as int) =~= v@);
            Some(string_of(&v, a, b))
        },
        None => None,
    }
}

/// Resolves a revision name: the trimmed content of the branch file of that
/// name when there is one; else, for `HEAD`, the commit HEAD names (`head`)
/// when it names one; else the name itself when an object of that name
/// exists and the name is at least 40 bytes long; else an error.
pub fn resolve_revision(name: &str, branch_file: Option<&str>, head: Option<&str>, object_exists: bool) -> (r: Result<String, Git5Error>)
    ensures
        branch_file matches Some(c) ==> (r matches Ok(h) && h@ == trim(c@)),
        branch_file is None && name@ == "HEAD"@ && head is Some ==> (r matches Ok(h) && h@ == head->0@),
        branch_file is None && !(name@ == "HEAD"@ && head is Some) && object_exists && name.spec_bytes().len()
            >= 40 ==> (r matches Ok(h) && h@ == name@),
        branch_file is None && !(name@ == "HEAD"@ && head is Some) && !(object_exists
            && name.spec_bytes().len() >= 40) ==> (r matches Err(Git5Error::InvalidRef(m)) && m@
            == "Cannot resolve revision: "@ + name@),
{
    match branch_file {
        Some(c) => {
            let v = chars_of(c);
            let (a, b) = trim_range(&v, 0, v.len());
            assert(v@.subrange(0, v@.len() as int) =~= v@);
            Ok(string_of(&v, a, b))
        },
        None => {
            if str_is(name, "HEAD") {
                if let Some(h) = head {
                    return Ok(string_of_all(&chars_of(h)));
                }
            }
            if object_exists && name.as_bytes().len() >= 40 {
                Ok(string_of_all(&chars_of(name)))
            } else {
                let mut m: Vec<char> = Vec::new();
                append_str(&mut m, "Cannot resolve revision: ");
                append_str(&mut m, name);
                Err(Git5Error::InvalidRef(string_of_all(&m)))
            }
        },
    }
}

/// The tree to check out for the object `hash` of type `obj_type`: the tree
/// a commit names (empty when it names none), a tree itself, or an error for
/// any other type.
pub fn checkout_tree_id(hash: &str, obj_type: &str, content: &[u8]) -> (r: Result<String, Git5Error>)
    ensures
        obj_type@ == "commit"@ ==> (r matches Ok(t) && t@ == (match commit_tree_of(content@) {
            Some(x) => x,
            None => Seq::empty(),
        })),
        obj_type@ == "tree"@ ==> (r matches Ok(t) && t@ == hash@),
        obj_type@ != "commit"@ && obj_type@ != "tree"@ ==> (r matches Err(Git5Error::InvalidObject(m))
            && m@ == "Cannot checkout an object of type "@ + obj_type@),
{
    proof {
        reveal_strlit("commit");
        reveal_strlit("tree");
        assert("commit"@[0] != "tree"@[0]);
    }
    if str_is(obj_type, "commit") {
        match commit_tree_hash(content) {
            Some(t) => Ok(t),
            None => Ok(String::new()),
        }
    } else if str_is(obj_type, "tree") {
        Ok(string_of_all(&chars_of(hash)))
    } else {
        let mut m: Vec<char> = Vec::new();
        append_str(&mut m, "Cannot checkout an object of type ");
        append_str(&mut m, obj_type);
        Err(Git5Error::InvalidObject(string_of_all(&m)))
    }
}

/// The tree a fast-forward merge checks out, from the target object: the
/// tree a commit names (empty when it names none), or an error for any other
/// type.
pub fn merge_target_tree(obj_type: &str, content: &[u8]) -> (r: Result<String, Git5Error>)
    ensures
        obj_type@ == "commit"@ ==> (r matches Ok(t) && t@ == (match commit_tree_of(content@) {
            Some(x) => x,
            None => Seq::empty(),
        })),
        obj_type@ != "commit"@ ==> (r matches Err(Git5Error::InvalidObject(m)) && m@
            == "Merge target is not a commit"@),
{
    if str_is(obj_type, "commit") {
        match commit_tree_hash(content) {
            Some(t) => Ok(t),
            None => Ok(String::new()),
        }
    } else {
        Err(Git5Error::InvalidObject(String::from_str("Merge target is not a commit")))
    }
}

/// The name of the first ref among `refs` (name, file text) whose file's
/// trimmed text is `hash`.
pub open spec fn first_ref_to(hash: Seq<char>, refs: Seq<(Seq<char>, Seq<char>)>) -> Option<Seq<char>>
    decreases refs.len(),
{
    if refs.len() == 0 {
        None
    } else if trim(refs[0].1) == hash {
        Some(refs[0].0)
    } else {
        first_ref_to(hash, refs.drop_first())
    }
}

/// The texts of (name, file text) pairs.
pub open spec fn ref_texts(refs: Seq<(String, String)>) -> Seq<(Seq<char>, Seq<char>)> {
    refs.map_values(|e: (String, String)| (e.0@, e.1@))
}

fn first_ref(hash: &str, refs: &Vec<(String, String)>) -> (r: Option<String>)
    ensures
        r is Some <==> first_ref_to(hash@, ref_texts(refs@)) is Some,
        r matches Some(n) ==> n@ == first_ref_to(hash@, ref_texts(refs@))->0,
{
    let h = chars_of(hash);
    let ghost all = ref_texts(refs@);
    let mut k: usize = 0;
    assert(all.skip(0) =~= all);
    while k < refs.len()
        invariant
            h@ == hash@,
            all == ref_texts(refs@),
            k <= refs@.len(),
            first_ref_to(hash@, all) == first_ref_to(hash@, all.skip(k as int)),
        decreases refs@.len() - k,
    {
        assert(all.skip(k as int)[0] == all[k as int]);
        assert(all.skip(k as int).drop_first() =~= all.skip(k + 1));
        let t = ref_file_hash(refs[k].1.as_str());
        if chars_equal(&chars_of(t.as_str()), &h) {
            return Some(string_of_all(&chars_of(refs[k].0.as_str())));
        }
        k = k + 1;
    }
    None
}

/// The ref that names the commit `hash` for `name-rev`: the first branch
/// among `heads`, else the first tag among `tags` (each a name and its
/// file's text), whose trimmed text is `hash`, as `refs/heads/<name>` or
/// `refs/tags/<name>`.
pub fn named_ref(hash: &str, heads: &Vec<(String, String)>, tags: &Vec<(String, String)>) -> (r: Option<String>)
    ensures
        first_ref_to(hash@, ref_texts(heads@)) matches Some(n) ==> (r matches Some(x) && x@ == "refs/heads/"@ + n),
        first_ref_to(hash@, ref_texts(heads@)) is None ==> (first_ref_to(hash@, ref_texts(tags@)) matches Some(n)
            ==> (r matches Some(x) && x@ == "refs/tags/"@ + n)),
        first_ref_to(hash@, ref_texts(heads@)) is None && first_ref_to(hash@, ref_texts(tags@)) is None ==> r is None,
{
    match first_ref(hash, heads) {
        Some(n) => {
            let mut v: Vec<char> = Vec::new();
            append_str(&mut v, "refs/heads/");
            append_str(&mut v, n.as_str());
            Some(string_of_all(&v))
        },
        None => match first_ref(hash, tags) {
            Some(n) => {
                let mut v: Vec<char> = Vec::new();
                append_str(&mut v, "refs/tags/");
                append_str(&mut v, n.as_str());
                Some(string_of_all(&v))
            },
            None => None,
        },
    }
}

/// What a merge of `target` into `head` does.
pub enum MergeAction {
    /// Nothing: they are the same commit.
    UpToDate,
    /// Move to the target: HEAD is its ancestor.
    FastForward,
    /// Stop: only fast-forward merges are made.
    Unsupported,
}

/// Decides a merge: up to date when the commits are the same, a
/// fast-forward when HEAD is an ancestor of the target, else unsupported.
pub fn merge_action(head: &str, target: &str, head_is_ancestor: bool) -> (m: MergeAction)
    ensures
        head@ == target@ ==> m == MergeAction::UpToDate,
        head@ != target@ && head_is_ancestor ==> m == MergeAction::FastForward,
        head@ != target@ && !head_is_ancestor ==> m == MergeAction::Unsupported,
{
    if chars_equal(&chars_of(head), &chars_of(target)) {
        MergeAction::UpToDate
    } else if head_is_ancestor {
        MergeAction::FastForward
    } else {
        MergeAction::Unsupported
    }
}

/// What `symbolic-ref` shows of a HEAD file: its trimmed text, without a
/// leading `ref: `.
pub fn symbolic_ref_text(content: &str) -> (s: String)
    ensures
        s@ == (if "ref: "@.is_prefix_of(trim(content@)) {
            trim(content@).skip(5)
        } else {
            trim(content@)
        }),
{
    proof {
        reveal_strlit("ref: ");
    }
    let v = chars_of(content);
    let (a, b) = trim_range(&v, 0, v.len());
    assert(v@.subrange(0, v@.len() as int) =~= v@);
    let pre = chars_of("ref: ");
    if has_prefix(&v, a, b, &pre) {
        assert(v@.subrange(a + 5, b as int) =~= v@.subrange(a as int, b as int).skip(5));
        string_of(&v, a + 5, b)
    } else {
        string_of(&v, a, b)
    }
}

/// The id a ref file holds: its trimmed text.
pub fn ref_file_hash(content: &str) -> (h: String)
    ensures
        h@ == trim(content@),
{
    let v = chars_of(content);
    let (a, b) = trim_range(&v, 0, v.len());
    assert(v@.subrange(0, v@.len() as int) =~= v@);
    string_of(&v, a, b)
}

/// A line that `lines` reads back as it is: no line break, and no trailing
/// carriage return.
pub open spec fn line_ok(l: Seq<char>) -> bool {
    !l.contains('\n') && (l.len() == 0 || l.last() != '\r')
}

proof fn lemma_line_ok_concat(a: Seq<char>, b: Seq<char>)
    requires
        !a.contains('\n'),
        line_ok(b),
        b.len() > 0,
    ensures
        line_ok(a + b),
{
    if (a + b).contains('\n') {
        let i = choose|i: int| 0 <= i < (a + b).len() && (a + b)[i] == '\n';
        if i < a.len() {
            assert(a[i] == '\n');
        } else {
            assert(b[i - a.len()] == '\n');
        }
    }
    assert((a + b).last() == b.last());
}

/// The numeral of a signed number has no line break and ends with a digit.
proof fn lemma_signed_decimal_line(n: int)
    ensures
        line_ok(signed_decimal(n)),
        signed_decimal(n).len() > 0,
{
    let m: nat = if n < 0 {
        (-n) as nat
    } else {
        n as nat
    };
    lemma_decimal_digits(m);
    let d = decimal(m);
    if d.contains('\n') {
        let i = choose|i: int| 0 <= i < d.len() && d[i] == '\n';
        assert(48 <= d[i] as u32 <= 57);
    }
    assert(48 <= d[d.len() - 1] as u32 <= 57);
    if n < 0 {
        lemma_line_ok_concat(seq!['-'], d);
    }
}

/// What `log` reads of lines after the message has begun leaves the parent
/// it found and stays in the message.
proof fn lemma_log_fold_message(a: Seq<Seq<char>>, b: Seq<Seq<char>>)
    requires
        log_fold(a).0,
    ensures
        log_fold(a + b).0,
        log_fold(a + b).1 == log_fold(a).1,
    decreases b.len(),
{
    if b.len() == 0 {
        assert(a + b =~= a);
    } else {
        lemma_log_fold_message(a, b.drop_last());
        assert((a + b).drop_last() =~= a + b.drop_last());
    }
}

/// The author line's text after `author ` (and the committer's after
/// `committer `).
pub open spec fn commit_who(ts: int) -> Seq<char> {
    commit_author() + seq![' '] + signed_decimal(ts) + " +0000"@
}

/// The header lines of a commit's text: tree, parent, author, committer and
/// the empty line before the message.
pub open spec fn commit_head_lines(tree: Seq<char>, parent: Option<Seq<char>>, ts: int) -> Seq<Seq<char>> {
    seq!["tree "@ + tree] + (match parent {
        Some(p) => seq!["parent "@ + p],
        None => Seq::empty(),
    }) + seq!["author "@ + commit_who(ts), "committer "@ + commit_who(ts), Seq::empty()]
}

proof fn lemma_prefixed_line_ok(pre: Seq<char>, x: Seq<char>)
    requires
        !pre.contains('\n'),
        line_ok(x),
        pre.len() > 0,
        pre.last() != '\r',
    ensures
        line_ok(pre + x),
{
    if x.len() > 0 {
        lemma_line_ok_concat(pre, x);
    } else {
        assert(pre + x =~= pre);
    }
}

/// The author and committer text is a single line.
proof fn lemma_commit_who_line(ts: int)
    ensures
        line_ok(commit_who(ts)),
        line_ok("author "@ + commit_who(ts)),
        line_ok("committer "@ + commit_who(ts)),
{
    reveal_strlit(" +0000");
    reveal_strlit("git4 User <git4@example.com>");
    reveal_strlit("author ");
    reveal_strlit("committer ");
    lemma_signed_decimal_line(ts);
    assert(line_ok(" +0000"@));
    let w = commit_author() + seq![' '];
    assert(!w.contains('\n')) by {
        if w.contains('\n') {
            let i = choose|i: int| 0 <= i < w.len() && w[i] == '\n';
        }
    }
    lemma_line_ok_concat(signed_decimal(ts), " +0000"@);
    lemma_line_ok_concat(w, signed_decimal(ts) + " +0000"@);
    assert(w + (signed_decimal(ts) + " +0000"@) =~= commit_who(ts));
    assert(!"author "@.contains('\n'));
    assert(!"committer "@.contains('\n'));
    lemma_line_ok_concat("author "@, commit_who(ts));
    lemma_line_ok_concat("committer "@, commit_who(ts));
}

/// The lines of a commit's text: its header lines, then the message's.
proof fn lemma_commit_lines(tree: Seq<char>, parent: Option<Seq<char>>, message: Seq<char>, ts: int)
    requires
        line_ok(tree),
        parent matches Some(p) ==> line_ok(p),
    ensures
        lines(commit_text(tree, parent, message, ts)) == commit_head_lines(tree, parent, ts) + lines(
            message.push('\n'),
        ),
{
    reveal_strlit("tree ");
    reveal_strlit("parent ");
    let text = commit_text(tree, parent, message, ts);
    lemma_commit_who_line(ts);
    let lt = "tree "@ + tree;
    let la = "author "@ + commit_who(ts);
    let lc = "committer "@ + commit_who(ts);
    assert(!"tree "@.contains('\n'));
    lemma_prefixed_line_ok("tree "@, tree);
    let mtail = seq!['\n'] + message.push('\n');
    let r3 = lc.push('\n') + mtail;
    let r2 = la.push('\n') + r3;
    let pl: Seq<char> = match parent {
        Some(p) => ("parent "@ + p).push('\n'),
        None => Seq::empty(),
    };
    let r1 = pl + r2;
    assert(text =~= lt.push('\n') + r1);
    lemma_lines_single(lt);
    lemma_lines_single(la);
    lemma_lines_single(lc);
    lemma_lines_single(Seq::<char>::empty());
    assert(seq!['\n'] =~= Seq::<char>::empty().push('\n'));
    lemma_lines_append(seq!['\n'], message.push('\n'));
    lemma_lines_append(lc.push('\n'), mtail);
    lemma_lines_append(la.push('\n'), r3);
    match parent {
        Some(p) => {
            assert(!"parent "@.contains('\n'));
            lemma_prefixed_line_ok("parent "@, p);
            lemma_lines_single("parent "@ + p);
            lemma_lines_append(pl, r2);
        },
        None => {
            assert(r1 =~= r2);
        },
    }
    lemma_lines_append(lt.push('\n'), r1);
    assert(lines(text) =~= commit_head_lines(tree, parent, ts) + lines(message.push('\n')));
}

/// What `log` reads of a commit's header: it reaches the message, having
/// found the parent the header names.
proof fn lemma_commit_log_head(tree: Seq<char>, parent: Option<Seq<char>>, ts: int)
    ensures
        log_fold(commit_head_lines(tree, parent, ts)).0,
        log_fold(commit_head_lines(tree, parent, ts)).1 == parent,
{
    reveal_strlit("tree ");
    reveal_strlit("parent ");
    reveal_strlit("author ");
    reveal_strlit("committer ");
    let lt = "tree "@ + tree;
    let la = "author "@ + commit_who(ts);
    let lc = "committer "@ + commit_who(ts);
    assert(!"parent "@.is_prefix_of(lt)) by {
        assert(lt[0] != "parent "@[0]);
    }
    assert(!"author "@.is_prefix_of(lt)) by {
        assert(lt[0] != "author "@[0]);
    }
    assert(!"committer "@.is_prefix_of(lt)) by {
        assert(lt[0] != "committer "@[0]);
    }
    assert(!"parent "@.is_prefix_of(la)) by {
        assert(la[0] != "parent "@[0]);
    }
    assert("author "@.is_prefix_of(la)) by {
        assert(la.subrange(0, 7) =~= "author "@);
    }
    assert(!"parent "@.is_prefix_of(lc)) by {
        assert(lc[0] != "parent "@[0]);
    }
    let h1 = seq![lt];
    assert(h1.drop_last() =~= Seq::<Seq<char>>::empty());
    assert(log_fold(h1) == log_step(log_fold(Seq::<Seq<char>>::empty()), lt));
    let h2: Seq<Seq<char>> = match parent {
        Some(p) => h1.push("parent "@ + p),
        None => h1,
    };
    if let Some(p) = parent {
        let lp = "parent "@ + p;
        assert(h2.drop_last() =~= h1);
        assert("parent "@.is_prefix_of(lp)) by {
            assert(lp.subrange(0, 7) =~= "parent "@);
        }
        assert(lp.skip(7) =~= p);
        assert(log_fold(h2) == log_step(log_fold(h1), lp));
    }
    let h3 = h2.push(la);
    assert(h3.drop_last() =~= h2);
    assert(log_fold(h3) == log_step(log_fold(h2), la));
    let h4 = h3.push(lc);
    assert(h4.drop_last() =~= h3);
    assert(log_fold(h4) == log_step(log_fold(h3), lc));
    let h5 = h4.push(Seq::<char>::empty());
    assert(h5.drop_last() =~= h4);
    assert(log_fold(h5) == log_step(log_fold(h4), Seq::<char>::empty()));
    assert(h5 =~= commit_head_lines(tree, parent, ts));
}

/// A commit reads back the tree and the parent it was made with: in the
/// text `commit_text` writes (stored as UTF-8), the first `tree ` line names
/// the tree, the first `parent ` line names the parent when one was given,
/// and the parent that `log` goes on to is the one given (none for a root
/// commit); for a tree and a parent that are single lines.
pub proof fn lemma_commit_roundtrip(tree: Seq<char>, parent: Option<Seq<char>>, message: Seq<char>, ts: int)
    requires
        line_ok(tree),
        parent matches Some(p) ==> line_ok(p),
    ensures
        commit_tree_of(encode_utf8(commit_text(tree, parent, message, ts))) == Some(tree),
        commit_parent_of(encode_utf8(commit_text(tree, parent, message, ts))) == parent,
        log_fold(lines(lenient_utf8(encode_utf8(commit_text(tree, parent, message, ts))))).1 == parent,
{
    reveal_strlit("tree ");
    reveal_strlit("parent ");
    reveal_strlit("author ");
    reveal_strlit("committer ");
    let text = commit_text(tree, parent, message, ts);
    vstd::utf8::encode_utf8_valid_utf8(text);
    vstd::utf8::encode_utf8_decode_utf8(text);
    assert(lenient_utf8(encode_utf8(text)) == text);
    lemma_commit_lines(tree, parent, message, ts);
    let head = commit_head_lines(tree, parent, ts);
    let ls = lines(text);
    let lt = "tree "@ + tree;
    let la = "author "@ + commit_who(ts);
    let lc = "committer "@ + commit_who(ts);
    let hp: Seq<Seq<char>> = match parent {
        Some(p) => seq!["parent "@ + p],
        None => Seq::empty(),
    };
    let hd = seq![lt] + hp + seq![la, lc];
    assert(head =~= hd + seq![Seq::<char>::empty()]);
    assert forall|i: int| 0 <= i < hd.len() implies (#[trigger] hd[i]).len() > 0 by {}
    lemma_header_lines_prefix(hd, lines(message.push('\n')));
    assert(ls =~= hd + seq![Seq::<char>::empty()] + lines(message.push('\n')));
    assert(header_lines(ls) == hd);
    assert(hd[0] == lt);
    assert("tree "@.is_prefix_of(lt)) by {
        assert(lt.subrange(0, 5) =~= "tree "@);
    }
    assert(lt.skip(5) =~= tree);
    assert(!"parent "@.is_prefix_of(lt)) by {
        assert(lt[0] != "parent "@[0]);
    }
    assert(!"parent "@.is_prefix_of(la)) by {
        assert(la[0] != "parent "@[0]);
    }
    assert(!"parent "@.is_prefix_of(lc)) by {
        assert(lc[0] != "parent "@[0]);
    }
    assert(prefixed_line(hd, "parent "@) == prefixed_line(hd.drop_first(), "parent "@));
    if let Some(p) = parent {
        let lp = "parent "@ + p;
        assert(hd.drop_first()[0] == lp);
        assert("parent "@.is_prefix_of(lp)) by {
            assert(lp.subrange(0, 7) =~= "parent "@);
        }
        assert(lp.skip(7) =~= p);
    } else {
        let t1 = hd.drop_first();
        assert(t1 =~= seq![la, lc]);
        assert(t1[0] == la);
        assert(prefixed_line(t1, "parent "@) == prefixed_line(t1.drop_first(), "parent "@));
        let t2 = t1.drop_first();
        assert(t2 =~= seq![lc]);
        assert(t2[0] == lc);
        assert(prefixed_line(t2, "parent "@) == prefixed_line(t2.drop_first(), "parent "@));
        assert(t2.drop_first() =~= Seq::<Seq<char>>::empty());
    }
    lemma_commit_log_head(tree, parent, ts);
    lemma_log_fold_message(head, lines(message.push('\n')));
}

/// The header lines of lines that start with non-empty lines and then an
/// empty one are those non-empty lines.
proof fn lemma_header_lines_prefix(a: Seq<Seq<char>>, b: Seq<Seq<char>>)
    requires
        forall|i: int| 0 <= i < a.len() ==> (#[trigger] a[i]).len() > 0,
    ensures
        header_lines(a + seq![Seq::<char>::empty()] + b) == a,
    decreases a.len(),
{
    let all = a + seq![Seq::<char>::empty()] + b;
    if a.len() == 0 {
        assert(all[0] == Seq::<char>::empty());
        assert(header_lines(all) =~= a);
    } else {
        let t = a.drop_first();
        assert forall|i: int| 0 <= i < t.len() implies (#[trigger] t[i]).len() > 0 by {
            assert(t[i] == a[i + 1]);
        }
        lemma_header_lines_prefix(t, b);
        assert(all[0] == a[0]);
        assert(all.drop_first() =~= t + seq![Seq::<char>::empty()] + b);
        assert(header_lines(all) =~= seq![a[0]] + t);
        assert(seq![a[0]] + t =~= a);
    }
}

/// A stored commit reads back the tree and the parent it was made with: any
/// object file holding the compressed commit that `commit_object_at` (and so
/// `commit_tree`) makes reads back as a commit whose header names that tree
/// and that parent (none for a root commit, whatever its message says).
pub proof fn lemma_stored_commit_reads_back(
    tree: Seq<char>,
    parent: Option<Seq<char>>,
    message: Seq<char>,
    ts: int,
    file: Seq<u8>,
)
    requires
        line_ok(tree),
        parent matches Some(p) ==> line_ok(p),
        unzlib_of(file) == Some(commit_store(tree, parent, message, ts)),
    ensures
        read_back(file) == Some(("commit"@, encode_utf8(commit_text(tree, parent, message, ts)))),
        read_back(file) matches Some((t, c)) && commit_tree_of(c) == Some(tree) && commit_parent_of(c) == parent,
{
    reveal_strlit("commit");
    assert(!"commit"@.contains(' ')) by {
        if "commit"@.contains(' ') {
            let i = choose|i: int| 0 <= i < 6 && "commit"@[i] == ' ';
        }
    }
    assert(!"commit"@.contains('\0')) by {
        if "commit"@.contains('\0') {
            let i = choose|i: int| 0 <= i < 6 && "commit"@[i] == '\0';
        }
    }
    crate::object::lemma_object_roundtrip("commit"@, encode_utf8(commit_text(tree, parent, message, ts)));
    lemma_commit_roundtrip(tree, parent, message, ts);
}

/// The commit `k` first-parent steps from `x`, given the parent each commit
/// names (`parents`; a commit it does not hold names none).
pub open spec fn nth_parent(parents: Map<Seq<char>, Seq<char>>, x: Seq<char>, k: nat) -> Option<Seq<char>>
    decreases k,
{
    if k == 0 {
        Some(x)
    } else {
        match nth_parent(parents, x, (k - 1) as nat) {
            Some(y) => if parents.dom().contains(y) {
                Some(parents[y])
            } else {
                None
            },
            None => None,
        }
    }
}

/// `a` lies on the first-parent chain from `b`.
pub open spec fn on_chain(parents: Map<Seq<char>, Seq<char>>, a: Seq<char>, b: Seq<char>) -> bool {
    exists|k: nat| nth_parent(parents, b, k) == Some(a)
}

/// No commit is its own first-parent ancestor.
pub open spec fn chains_acyclic(parents: Map<Seq<char>, Seq<char>>) -> bool {
    forall|x: Seq<char>, k: nat| k > 0 ==> nth_parent(parents, x, k) != Some(x)
}

/// The outcome of walking with `is_ancestor` steps from `current`, each
/// `ReadParentOf(h)` answered with `h`'s parent, for at most `fuel` steps:
/// `None` when the fuel runs out first.
pub open spec fn ancestor_walk(
    parents: Map<Seq<char>, Seq<char>>,
    ancestor: Seq<char>,
    current: Option<Seq<char>>,
    fuel: nat,
) -> Option<bool>
    decreases fuel,
{
    if fuel == 0 {
        None
    } else {
        match current {
            None => Some(false),
            Some(c) => if c == ancestor {
                Some(true)
            } else {
                ancestor_walk(
                    parents,
                    ancestor,
                    if parents.dom().contains(c) {
                        Some(parents[c])
                    } else {
                        None
                    },
                    (fuel - 1) as nat,
                )
            },
        }
    }
}

proof fn lemma_nth_parent_add(parents: Map<Seq<char>, Seq<char>>, x: Seq<char>, i: nat, j: nat)
    ensures
        nth_parent(parents, x, i + j) == match nth_parent(parents, x, i) {
            Some(y) => nth_parent(parents, y, j),
            None => None,
        },
    decreases j,
{
    if j > 0 {
        lemma_nth_parent_add(parents, x, i, (j - 1) as nat);
        assert((i + j - 1) as nat == i + (j - 1) as nat);
        if let Some(y) = nth_parent(parents, x, i) {
        } else {
        }
    }
}

/// Being on the first-parent chain is transitive.
pub proof fn lemma_on_chain_transitive(parents: Map<Seq<char>, Seq<char>>, a: Seq<char>, b: Seq<char>, c: Seq<char>)
    requires
        on_chain(parents, a, b),
        on_chain(parents, b, c),
    ensures
        on_chain(parents, a, c),
{
    let i = choose|k: nat| nth_parent(parents, c, k) == Some(b);
    let j = choose|k: nat| nth_parent(parents, b, k) == Some(a);
    lemma_nth_parent_add(parents, c, i, j);
    assert(nth_parent(parents, c, i + j) == Some(a));
}

/// With acyclic chains, two different commits are not each on the other's
/// chain.
pub proof fn lemma_on_chain_antisymmetric(parents: Map<Seq<char>, Seq<char>>, a: Seq<char>, b: Seq<char>)
    requires
        chains_acyclic(parents),
        a != b,
        on_chain(parents, a, b),
    ensures
        !on_chain(parents, b, a),
{
    if on_chain(parents, b, a) {
        let i = choose|k: nat| nth_parent(parents, b, k) == Some(a);
        let j = choose|k: nat| nth_parent(parents, a, k) == Some(b);
        lemma_nth_parent_add(parents, b, i, j);
        assert(nth_parent(parents, b, i + j) == Some(b));
        assert(i > 0) by {
            if i == 0 {
                assert(nth_parent(parents, b, 0) == Some(b));
            }
        }
        assert(nth_parent(parents, b, i + j) != Some(b));
    }
}

/// The walk that `is_ancestor` steps make answers whether the ancestor is
/// on the chain: when it ends within `fuel` steps, it ends in `true` exactly
/// when some step `k < fuel` reaches the ancestor.
pub proof fn lemma_ancestor_walk(parents: Map<Seq<char>, Seq<char>>, ancestor: Seq<char>, b: Seq<char>, fuel: nat)
    ensures
        ancestor_walk(parents, ancestor, Some(b), fuel) == Some(true) <==> exists|k: nat|
            k < fuel && nth_parent(parents, b, k) == Some(ancestor),
        ancestor_walk(parents, ancestor, Some(b), fuel) == Some(false) ==> !on_chain(parents, ancestor, b),
    decreases fuel,
{
    if fuel > 0 && b != ancestor {
        if parents.dom().contains(b) {
            let p = parents[b];
            assert(ancestor_walk(parents, ancestor, Some(b), fuel) == ancestor_walk(
                parents,
                ancestor,
                Some(p),
                (fuel - 1) as nat,
            ));
            lemma_ancestor_walk(parents, ancestor, p, (fuel - 1) as nat);
            assert forall|k: nat| #[trigger] nth_parent(parents, b, k + 1) == nth_parent(parents, p, k) by {
                lemma_nth_parent_add(parents, b, 1, k);
                assert(nth_parent(parents, b, 1) == Some(p));
            }
            if exists|k: nat| k < fuel && nth_parent(parents, b, k) == Some(ancestor) {
                let k = choose|k: nat| k < fuel && nth_parent(parents, b, k) == Some(ancestor);
                assert(k > 0);
                assert(nth_parent(parents, b, ((k - 1) as nat) + 1) == nth_parent(parents, p, (k - 1) as nat));
                assert(((k - 1) as nat) + 1 == k);
                assert(nth_parent(parents, p, (k - 1) as nat) == Some(ancestor));
                assert(((k - 1) as nat) < fuel - 1);
            }
            if exists|k: nat| k < fuel - 1 && nth_parent(parents, p, k) == Some(ancestor) {
                let k = choose|k: nat| k < fuel - 1 && nth_parent(parents, p, k) == Some(ancestor);
                assert(nth_parent(parents, b, k + 1) == Some(ancestor));
            }
            if on_chain(parents, ancestor, b) {
                let k = choose|k: nat| nth_parent(parents, b, k) == Some(ancestor);
                assert(k > 0);
                assert(nth_parent(parents, b, ((k - 1) as nat) + 1) == nth_parent(parents, p, (k - 1) as nat));
                assert(on_chain(parents, ancestor, p));
            }
        } else {
            assert(ancestor_walk(parents, ancestor, Some(b), fuel) == ancestor_walk(
                parents,
                ancestor,
                None,
                (fuel - 1) as nat,
            ));
            assert(nth_parent(parents, b, 1) is None);
            assert forall|k: nat| k > 0 implies nth_parent(parents, b, k) is None by {
                lemma_nth_parent_add(parents, b, 1, (k - 1) as nat);
                assert(1 + (k - 1) as nat == k);
            }
            if on_chain(parents, ancestor, b) {
                let k = choose|k: nat| nth_parent(parents, b, k) == Some(ancestor);
                if k == 0 {
                    assert(nth_parent(parents, b, 0) == Some(b));
                }
            }
            if exists|k: nat| k < fuel && nth_parent(parents, b, k) == Some(ancestor) {
                let k = choose|k: nat| k < fuel && nth_parent(parents, b, k) == Some(ancestor);
                if k == 0 {
                    assert(nth_parent(parents, b, 0) == Some(b));
                }
            }
        }
    } else if fuel > 0 {
        assert(nth_parent(parents, b, 0) == Some(b));
    }
}

} // verus!
