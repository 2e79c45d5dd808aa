//! Comparing file listings: the three-way status of HEAD, the index and the
//! work tree, and the difference of two trees.
use vstd::prelude::*;
use vstd::string::*;
use crate::strmap::{StrMap, has_key, lemma_pairs_map_at, keys_sorted};
use crate::text::{chars_of, chars_equal, append_chars, append_str, string_of_all, chars_lt};

verus! {

/// The tag of a changed path that differs.
pub open spec fn modified_tag() -> Seq<char> {
    "modified:   "@
}

/// The tag of a path that is new.
pub open spec fn new_file_tag() -> Seq<char> {
    "new file:   "@
}

/// The tag of a path that is gone.
pub open spec fn deleted_tag() -> Seq<char> {
    "deleted:    "@
}

proof fn lemma_tags()
    ensures
        modified_tag().len() == 12,
        new_file_tag().len() == 12,
        deleted_tag().len() == 12,
        modified_tag() != new_file_tag(),
        modified_tag() != deleted_tag(),
        new_file_tag() != deleted_tag(),
{
    reveal_strlit("modified:   ");
    reveal_strlit("new file:   ");
    reveal_strlit("deleted:    ");
    assert(modified_tag()[0] != new_file_tag()[0]);
    assert(modified_tag()[0] != deleted_tag()[0]);
    assert(new_file_tag()[0] != deleted_tag()[0]);
}

/// A status line: a 12-character tag followed by a path.
proof fn lemma_tagged(tag: Seq<char>, p: Seq<char>)
    requires
        tag.len() == 12,
    ensures
        (tag + p).len() >= 12,
        (tag + p).take(12) == tag,
        (tag + p).skip(12) == p,
{
    assert((tag + p).take(12) =~= tag);
    assert((tag + p).skip(12) =~= p);
}

/// A line is its tag followed by its path.
proof fn lemma_untag(l: Seq<char>)
    requires
        l.len() >= 12,
    ensures
        l == l.take(12) + l.skip(12),
{
    assert(l =~= l.take(12) + l.skip(12));
}

/// The changes staged for commit: paths whose index entry differs from
/// HEAD (`modified`), that only the index has (`new file`), or that only
/// HEAD has (`deleted`).
pub open spec fn staged_change(
    index: Map<Seq<char>, Seq<char>>,
    head: Map<Seq<char>, Seq<char>>,
    l: Seq<char>,
) -> bool {
    let t = l.take(12);
    let p = l.skip(12);
    &&& l.len() >= 12
    &&& {
        ||| t == modified_tag() && index.dom().contains(p) && head.dom().contains(p) && index[p]
            != head[p]
        ||| t == new_file_tag() && index.dom().contains(p) && !head.dom().contains(p)
        ||| t == deleted_tag() && head.dom().contains(p) && !index.dom().contains(p)
    }
}

/// The changes not staged: work-tree files that differ from the index, or,
/// when not in the index, from HEAD (`modified`); and paths of the index or
/// HEAD missing from the work tree (`deleted`).
pub open spec fn unstaged_change(
    work: Map<Seq<char>, Seq<char>>,
    index: Map<Seq<char>, Seq<char>>,
    head: Map<Seq<char>, Seq<char>>,
    l: Seq<char>,
) -> bool {
    let t = l.take(12);
    let p = l.skip(12);
    &&& l.len() >= 12
    &&& {
        ||| t == modified_tag() && work.dom().contains(p) && ((index.dom().contains(p) && work[p]
            != index[p]) || (!index.dom().contains(p) && head.dom().contains(p) && work[p]
            != head[p]))
        ||| t == deleted_tag() && !work.dom().contains(p) && (index.dom().contains(p)
            || head.dom().contains(p))
    }
}

/// Untracked paths: in the work tree, but neither in the index nor in HEAD.
pub open spec fn untracked_path(
    work: Map<Seq<char>, Seq<char>>,
    index: Map<Seq<char>, Seq<char>>,
    head: Map<Seq<char>, Seq<char>>,
    p: Seq<char>,
) -> bool {
    work.dom().contains(p) && !index.dom().contains(p) && !head.dom().contains(p)
}

/// `v` lists exactly the lines `pred` admits, strictly sorted (so each once).
pub open spec fn listing_is(v: Seq<Seq<char>>, pred: spec_fn(Seq<char>) -> bool) -> bool {
    &&& forall|i: int, j: int| 0 <= i < j < v.len() ==> chars_lt(#[trigger] v[i], #[trigger] v[j])
    &&& forall|i: int| 0 <= i < v.len() ==> pred(#[trigger] v[i])
    &&& forall|l: Seq<char>| #[trigger] pred(l) ==> v.contains(l)
}

/// The texts of strings.
pub open spec fn texts(v: Seq<String>) -> Seq<Seq<char>> {
    v.map_values(|s: String| s@)
}

/// A map's key at a position is in its domain, with the value beside it.
proof fn lemma_pair_in_map(m: StrMap, i: int)
    requires
        m.wf(),
        0 <= i < m.pairs().len(),
    ensures
        m@.dom().contains(m.pairs()[i].0),
        m@[m.pairs()[i].0] == m.pairs()[i].1,
{
    m.lemma_view();
    lemma_pairs_map_at(m.pairs(), i);
}

/// A key of a map's domain sits at some position of its pairs.
proof fn lemma_key_position(m: StrMap, p: Seq<char>) -> (i: int)
    requires
        m.wf(),
        m@.dom().contains(p),
    ensures
        0 <= i < m.pairs().len(),
        m.pairs()[i].0 == p,
{
    m.lemma_view();
    assert(has_key(m.pairs(), p));
    choose|i: int| 0 <= i < m.pairs().len() && (#[trigger] m.pairs()[i]).0 == p
}

/// `tag` followed by `p`.
fn tagged_line(tag: &str, p: &Vec<char>) -> (l: Vec<char>)
    ensures
        l@ == tag@ + p@,
{
    let mut l: Vec<char> = Vec::new();
    append_str(&mut l, tag);
    append_chars(&mut l, p);
    l
}

/// The keys of a map used as a set, in order.
fn keys_of(set: &StrMap) -> (r: Vec<String>)
    requires
        set.wf(),
    ensures
        texts(r@) == set.pairs().map_values(|e: (Seq<char>, Seq<char>)| e.0),
{
    let mut r: Vec<String> = Vec::new();
    let mut k: usize = 0;
    while k < set.len()
        invariant
            k <= set.pairs().len(),
            texts(r@) == set.pairs().map_values(|e: (Seq<char>, Seq<char>)| e.0).take(k as int),
        decreases set.pairs().len() - k,
    {
        let s = string_of_all(set.key_at(k));
        let ghost old_r = r@;
        r.push(s);
        assert(texts(r@) =~= texts(old_r).push(s@));
        assert(set.pairs().map_values(|e: (Seq<char>, Seq<char>)| e.0).take(k + 1) =~= set.pairs().map_values(
            |e: (Seq<char>, Seq<char>)| e.0,
        ).take(k as int).push(set.pairs()[k as int].0));
        k = k + 1;
    }
    assert(set.pairs().map_values(|e: (Seq<char>, Seq<char>)| e.0).take(set.pairs().len() as int)
        =~= set.pairs().map_values(|e: (Seq<char>, Seq<char>)| e.0));
    r
}

/// The ordered keys of a set that holds exactly what `pred` admits list
/// exactly that.
proof fn lemma_keys_listing(set: StrMap, r: Seq<Seq<char>>, pred: spec_fn(Seq<char>) -> bool)
    requires
        set.wf(),
        r == set.pairs().map_values(|e: (Seq<char>, Seq<char>)| e.0),
        forall|l: Seq<char>| #[trigger] set@.dom().contains(l) <==> pred(l),
    ensures
        listing_is(r, pred),
{
    assert forall|i: int| 0 <= i < r.len() implies pred(#[trigger] r[i]) by {
        lemma_pair_in_map(set, i);
    }
    assert forall|l: Seq<char>| #[trigger] pred(l) implies r.contains(l) by {
        assert(set@.dom().contains(l));
        let i = lemma_key_position(set, l);
        assert(r[i] == l);
    }
}

/// The lines staged for commit, as a set.
fn staged_set(index: &StrMap, head: &StrMap) -> (set: StrMap)
    requires
        index.wf(),
        head.wf(),
    ensures
        set.wf(),
        forall|l: Seq<char>| #[trigger] set@.dom().contains(l) <==> staged_change(index@, head@, l),
{
    proof {
        lemma_tags();
    }
    let mut set = StrMap::new();
    let mut k: usize = 0;
    while k < index.len()
        invariant
            index.wf(),
            head.wf(),
            set.wf(),
            k <= index.pairs().len(),
            forall|l: Seq<char>| #[trigger] set@.dom().contains(l) ==> staged_change(index@, head@, l),
            forall|i: int|
                0 <= i < k ==> {
                    let p = (#[trigger] index.pairs()[i]).0;
                    &&& staged_change(index@, head@, modified_tag() + p) ==> set@.dom().contains(
                        modified_tag() + p,
                    )
                    &&& staged_change(index@, head@, new_file_tag() + p) ==> set@.dom().contains(
                        new_file_tag() + p,
                    )
                },
        decreases index.pairs().len() - k,
    {
        let p = index.key_at(k);
        let h = index.value_at(k);
        proof {
            lemma_tags();
            lemma_pair_in_map(*index, k as int);
            lemma_tagged(modified_tag(), p@);
            lemma_tagged(new_file_tag(), p@);
        }
        match head.get(p) {
            Some(hh) => {
                if !chars_equal(h, hh) {
                    let l = tagged_line("modified:   ", p);
                    set.insert(l, Vec::new());
                }
            },
            None => {
                let l = tagged_line("new file:   ", p);
                set.insert(l, Vec::new());
            },
        }
        k = k + 1;
    }
    let mut k: usize = 0;
    while k < head.len()
        invariant
            index.wf(),
            head.wf(),
            set.wf(),
            k <= head.pairs().len(),
            forall|l: Seq<char>| #[trigger] set@.dom().contains(l) ==> staged_change(index@, head@, l),
            forall|i: int|
                0 <= i < index.pairs().len() ==> {
                    let p = (#[trigger] index.pairs()[i]).0;
                    &&& staged_change(index@, head@, modified_tag() + p) ==> set@.dom().contains(
                        modified_tag() + p,
                    )
                    &&& staged_change(index@, head@, new_file_tag() + p) ==> set@.dom().contains(
                        new_file_tag() + p,
                    )
                },
            forall|i: int|
                0 <= i < k ==> {
                    let p = (#[trigger] head.pairs()[i]).0;
                    staged_change(index@, head@, deleted_tag() + p) ==> set@.dom().contains(
                        deleted_tag() + p,
                    )
                },
        decreases head.pairs().len() - k,
    {
        let p = head.key_at(k);
        proof {
            lemma_tags();
            lemma_pair_in_map(*head, k as int);
            lemma_tagged(deleted_tag(), p@);
        }
        if !index.contains_key(p) {
            let l = tagged_line("deleted:    ", p);
            set.insert(l, Vec::new());
        }
        k = k + 1;
    }
    proof {
        lemma_tags();
    }
    assert forall|l: Seq<char>| #[trigger] staged_change(index@, head@, l) implies set@.dom().contains(l) by {
        let t = l.take(12);
        let p = l.skip(12);
        lemma_untag(l);
        if t == deleted_tag() {
            let i = lemma_key_position(*head, p);
            assert(head.pairs()[i].0 == p);
        } else {
            let i = lemma_key_position(*index, p);
            assert(index.pairs()[i].0 == p);
        }
    }
    set
}

/// The lines not staged for commit, as a set.
fn unstaged_set(work: &StrMap, index: &StrMap, head: &StrMap) -> (set: StrMap)
    requires
        work.wf(),
        index.wf(),
        head.wf(),
    ensures
        set.wf(),
        forall|l: Seq<char>| #[trigger] set@.dom().contains(l) <==> unstaged_change(work@, index@, head@, l),
{
    proof {
        lemma_tags();
    }
    let mut set = StrMap::new();
    let mut k: usize = 0;
    while k < work.len()
        invariant
            work.wf(),
            index.wf(),
            head.wf(),
            set.wf(),
            k <= work.pairs().len(),
            forall|l: Seq<char>| #[trigger] set@.dom().contains(l) ==> unstaged_change(work@, index@, head@, l),
            forall|i: int|
                0 <= i < k ==> {
                    let p = (#[trigger] work.pairs()[i]).0;
                    unstaged_change(work@, index@, head@, modified_tag() + p) ==> set@.dom().contains(
                        modified_tag() + p,
                    )
                },
        decreases work.pairs().len() - k,
    {
        let p = work.key_at(k);
        let h = work.value_at(k);
        proof {
            lemma_tags();
            lemma_pair_in_map(*work, k as int);
            lemma_tagged(modified_tag(), p@);
        }
        match index.get(p) {
            Some(ih) => {
                if !chars_equal(h, ih) {
                    let l = tagged_line("modified:   ", p);
                    set.insert(l, Vec::new());
                }
            },
            None => {
                match head.get(p) {
                    Some(hh) => {
                        if !chars_equal(h, hh) {
                            let l = tagged_line("modified:   ", p);
                            set.insert(l, Vec::new());
                        }
                    },
                    None => {},
                }
            },
        }
        k = k + 1;
    }
    let mut k: usize = 0;
    while k < index.len()
        invariant
            work.wf(),
            index.wf(),
            head.wf(),
            set.wf(),
            k <= index.pairs().len(),
            forall|l: Seq<char>| #[trigger] set@.dom().contains(l) ==> unstaged_change(work@, index@, head@, l),
            forall|i: int|
                0 <= i < work.pairs().len() ==> {
                    let p = (#[trigger] work.pairs()[i]).0;
                    unstaged_change(work@, index@, head@, modified_tag() + p) ==> set@.dom().contains(
                        modified_tag() + p,
                    )
                },
            forall|i: int|
                0 <= i < k ==> {
                    let p = (#[trigger] index.pairs()[i]).0;
                    unstaged_change(work@, index@, head@, deleted_tag() + p) ==> set@.dom().contains(
                        deleted_tag() + p,
                    )
                },
        decreases index.pairs().len() - k,
    {
        let p = index.key_at(k);
        proof {
            lemma_tags();
            lemma_pair_in_map(*index, k as int);
            lemma_tagged(deleted_tag(), p@);
        }
        if !work.contains_key(p) {
            let l = tagged_line("deleted:    ", p);
            set.insert(l, Vec::new());
        }
        k = k + 1;
    }
    let mut k: usize = 0;
    while k < head.len()
        invariant
            work.wf(),
            index.wf(),
            head.wf(),
            set.wf(),
            k <= head.pairs().len(),
            forall|l: Seq<char>| #[trigger] set@.dom().contains(l) ==> unstaged_change(work@, index@, head@, l),
            forall|i: int|
                0 <= i < work.pairs().len() ==> {
                    let p = (#[trigger] work.pairs()[i]).0;
                    unstaged_change(work@, index@, head@, modified_tag() + p) ==> set@.dom().contains(
                        modified_tag() + p,
                    )
                },
            forall|i: int|
                0 <= i < index.pairs().len() ==> {
                    let p = (#[trigger] index.pairs()[i]).0;
                    unstaged_change(work@, index@, head@, deleted_tag() + p) ==> set@.dom().contains(
                        deleted_tag() + p,
                    )
                },
            forall|i: int|
                0 <= i < k ==> {
                    let p = (#[trigger] head.pairs()[i]).0;
                    unstaged_change(work@, index@, head@, deleted_tag() + p) ==> set@.dom().contains(
                        deleted_tag() + p,
                    )
                },
        decreases head.pairs().len() - k,
    {
        let p = head.key_at(k);
        proof {
            lemma_tags();
            lemma_pair_in_map(*head, k as int);
            lemma_tagged(deleted_tag(), p@);
        }
        if !work.contains_key(p) {
            let l = tagged_line("deleted:    ", p);
            set.insert(l, Vec::new());
        }
        k = k + 1;
    }
    proof {
        lemma_tags();
    }
    assert forall|l: Seq<char>| #[trigger] unstaged_change(work@, index@, head@, l) implies set@.dom().contains(
        l,
    ) by {
        let t = l.take(12);
        let p = l.skip(12);
        lemma_untag(l);
        if t == modified_tag() {
            let i = lemma_key_position(*work, p);
            assert(work.pairs()[i].0 == p);
        } else if index@.dom().contains(p) {
            let i = lemma_key_position(*index, p);
            assert(index.pairs()[i].0 == p);
        } else {
            let i = lemma_key_position(*head, p);
            assert(head.pairs()[i].0 == p);
        }
    }
    set
}

/// The untracked paths, as a set.
fn untracked_set(work: &StrMap, index: &StrMap, head: &StrMap) -> (set: StrMap)
    requires
        work.wf(),
        index.wf(),
        head.wf(),
    ensures
        set.wf(),
        forall|l: Seq<char>| #[trigger] set@.dom().contains(l) <==> untracked_path(work@, index@, head@, l),
{
    let mut set = StrMap::new();
    let mut k: usize = 0;
    while k < work.len()
        invariant
            work.wf(),
            index.wf(),
            head.wf(),
            set.wf(),
            k <= work.pairs().len(),
            forall|l: Seq<char>| #[trigger] set@.dom().contains(l) ==> untracked_path(work@, index@, head@, l),
            forall|i: int|
                0 <= i < k ==> {
                    let p = (#[trigger] work.pairs()[i]).0;
                    untracked_path(work@, index@, head@, p) ==> set@.dom().contains(p)
                },
        decreases work.pairs().len() - k,
    {
        let p = work.key_at(k);
        proof {
            lemma_tags();
            lemma_pair_in_map(*work, k as int);
        }
        if !index.contains_key(p) && !head.contains_key(p) {
            set.insert(p.clone(), Vec::new());
        }
        k = k + 1;
    }
    assert forall|l: Seq<char>| #[trigger] untracked_path(work@, index@, head@, l) implies set@.dom().contains(
        l,
    ) by {
        let i = lemma_key_position(*work, l);
        assert(work.pairs()[i].0 == l);
    }
    set
}

/// The three lists that `status` shows.
pub struct StatusReport {
    pub to_commit: Vec<String>,
    pub not_staged: Vec<String>,
    pub untracked: Vec<String>,
}

/// Compares HEAD's files, the index and the work tree (each a map from path
/// to object id). Each list is sorted and holds each line once: the staged
/// changes, the unstaged changes, and the untracked paths.
pub fn status_report(head: &StrMap, index: &StrMap, work: &StrMap) -> (r: StatusReport)
    requires
        head.wf(),
        index.wf(),
        work.wf(),
    ensures
        listing_is(texts(r.to_commit@), |l: Seq<char>| staged_change(index@, head@, l)),
        listing_is(texts(r.not_staged@), |l: Seq<char>| unstaged_change(work@, index@, head@, l)),
        listing_is(texts(r.untracked@), |l: Seq<char>| untracked_path(work@, index@, head@, l)),
{
    let s1 = staged_set(index, head);
    let to_commit = keys_of(&s1);
    proof {
        lemma_keys_listing(s1, texts(to_commit@), |l: Seq<char>| staged_change(index@, head@, l));
    }
    let s2 = unstaged_set(work, index, head);
    let not_staged = keys_of(&s2);
    proof {
        lemma_keys_listing(s2, texts(not_staged@), |l: Seq<char>| unstaged_change(work@, index@, head@, l));
    }
    let s3 = untracked_set(work, index, head);
    let untracked = keys_of(&s3);
    proof {
        lemma_keys_listing(s3, texts(untracked@), |l: Seq<char>| untracked_path(work@, index@, head@, l));
    }
    StatusReport { to_commit, not_staged, untracked }
}

/// `sign`, the id, a space and the path: one line of a tree difference.
pub open spec fn diff_line(sign: char, id: Seq<char>, path: Seq<char>) -> Seq<char> {
    seq![sign] + id + seq![' '] + path
}

/// The lines for the paths of the first tree, in order: a changed id shows
/// the old (`-`, the second tree's) and the new (`+`) id; a path only the
/// first tree has shows `+`.
pub open spec fn tree_diff_first(p1: Seq<(Seq<char>, Seq<char>)>, m2: Map<Seq<char>, Seq<char>>) -> Seq<Seq<char>>
    decreases p1.len(),
{
    if p1.len() == 0 {
        Seq::empty()
    } else {
        let rest = tree_diff_first(p1.drop_last(), m2);
        let path = p1.last().0;
        let id = p1.last().1;
        if m2.dom().contains(path) {
            if m2[path] != id {
                rest + seq![diff_line('-', m2[path], path), diff_line('+', id, path)]
            } else {
                rest
            }
        } else {
            rest.push(diff_line('+', id, path))
        }
    }
}

/// The lines for paths only the second tree has, in order, marked `-`.
pub open spec fn tree_diff_second(p2: Seq<(Seq<char>, Seq<char>)>, m1: Map<Seq<char>, Seq<char>>) -> Seq<Seq<char>>
    decreases p2.len(),
{
    if p2.len() == 0 {
        Seq::empty()
    } else {
        let rest = tree_diff_second(p2.drop_last(), m1);
        let path = p2.last().0;
        if m1.dom().contains(path) {
            rest
        } else {
            rest.push(diff_line('-', p2.last().1, path))
        }
    }
}

fn diff_line_of(sign: char, id: &Vec<char>, path: &Vec<char>) -> (s: String)
    ensures
        s@ == diff_line(sign, id@, path@),
{
    let mut l: Vec<char> = Vec::new();
    l.push(sign);
    append_chars(&mut l, id);
    l.push(' ');
    append_chars(&mut l, path);
    assert(l@ =~= diff_line(sign, id@, path@));
    string_of_all(&l)
}

/// The lines `diff-tree` prints for two trees' file maps (path to id).
pub fn diff_tree_lines(files1: &StrMap, files2: &StrMap) -> (r: Vec<String>)
    requires
        files1.wf(),
        files2.wf(),
    ensures
        texts(r@) == tree_diff_first(files1.pairs(), files2@) + tree_diff_second(files2.pairs(), files1@),
{
    let mut r: Vec<String> = Vec::new();
    let mut k: usize = 0;
    while k < files1.len()
        invariant
            files1.wf(),
            files2.wf(),
            k <= files1.pairs().len(),
            texts(r@) == tree_diff_first(files1.pairs().take(k as int), files2@),
        decreases files1.pairs().len() - k,
    {
        let path = files1.key_at(k);
        let id = files1.value_at(k);
        let ghost old_r = texts(r@);
        assert(files1.pairs().take(k + 1).drop_last() =~= files1.pairs().take(k as int));
        match files2.get(path) {
            Some(id2) => {
                if !chars_equal(id, id2) {
                    r.push(diff_line_of('-', id2, path));
                    r.push(diff_line_of('+', id, path));
                    assert(texts(r@) =~= old_r + seq![diff_line('-', id2@, path@), diff_line('+', id@, path@)]);
                } else {
                    assert(texts(r@) =~= old_r);
                }
            },
            None => {
                r.push(diff_line_of('+', id, path));
                assert(texts(r@) =~= old_r.push(diff_line('+', id@, path@)));
            },
        }
        k = k + 1;
    }
    assert(files1.pairs().take(files1.pairs().len() as int) =~= files1.pairs());
    let ghost first = texts(r@);
    let mut k: usize = 0;
    while k < files2.len()
        invariant
            files1.wf(),
            files2.wf(),
            k <= files2.pairs().len(),
            texts(r@) == first + tree_diff_second(files2.pairs().take(k as int), files1@),
        decreases files2.pairs().len() - k,
    {
        let path = files2.key_at(k);
        let ghost old_r = texts(r@);
        assert(files2.pairs().take(k + 1).drop_last() =~= files2.pairs().take(k as int));
        if !files1.contains_key(path) {
            r.push(diff_line_of('-', files2.value_at(k), path));
            assert(texts(r@) =~= old_r.push(diff_line('-', files2.pairs()[k as int].1, path@)));
        }
        k = k + 1;
    }
    assert(files2.pairs().take(files2.pairs().len() as int) =~= files2.pairs());
    r
}

/// A listing of what nothing admits is empty.
pub proof fn lemma_listing_empty(v: Seq<Seq<char>>, pred: spec_fn(Seq<char>) -> bool)
    requires
        listing_is(v, pred),
        forall|l: Seq<char>| !#[trigger] pred(l),
    ensures
        v.len() == 0,
{
    if v.len() > 0 {
        assert(pred(v[0]));
    }
}

/// A clean work tree: when the index holds exactly HEAD's files and the
/// work tree exactly the index's, there is nothing staged, nothing
/// unstaged and nothing untracked.
pub proof fn lemma_status_clean(
    head: Map<Seq<char>, Seq<char>>,
    index: Map<Seq<char>, Seq<char>>,
    work: Map<Seq<char>, Seq<char>>,
)
    requires
        index == head,
        work == index,
    ensures
        forall|l: Seq<char>| !#[trigger] staged_change(index, head, l),
        forall|l: Seq<char>| !#[trigger] unstaged_change(work, index, head, l),
        forall|p: Seq<char>| !#[trigger] untracked_path(work, index, head, p),
{
}

/// A file staged but not in HEAD is listed as a new file to be committed.
pub proof fn lemma_status_new_file(
    head: Map<Seq<char>, Seq<char>>,
    index: Map<Seq<char>, Seq<char>>,
    p: Seq<char>,
)
    requires
        index.dom().contains(p),
        !head.dom().contains(p),
    ensures
        staged_change(index, head, new_file_tag() + p),
{
    lemma_tags();
    lemma_tagged(new_file_tag(), p);
}

} // verus!
