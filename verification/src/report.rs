//! What commands show: the status report, annotated lines, and the order
//! in which history is listed.
use vstd::prelude::*;
use vstd::string::*;
use crate::status::{StatusReport, texts};
use crate::strmap::StrMap;
use crate::text::{lines, chars_of, line_ranges, append_chars, append_str, string_of_all, decimal, decimal_of, sub_vec};

verus! {

broadcast use vstd::string::group_string_axioms;

/// A titled block of lines, each indented by two spaces, and an empty line;
/// nothing when there are no lines.
pub open spec fn block_text(title: Seq<char>, ls: Seq<Seq<char>>) -> Seq<char> {
    if ls.len() == 0 {
        Seq::empty()
    } else {
        title + seq!['\n'] + indented(ls) + seq!['\n']
    }
}

/// Lines indented by two spaces, each ended by a line break.
pub open spec fn indented(ls: Seq<Seq<char>>) -> Seq<char>
    decreases ls.len(),
{
    if ls.len() == 0 {
        Seq::empty()
    } else {
        indented(ls.drop_last()) + "  "@ + ls.last() + seq!['\n']
    }
}

/// The text `status` shows for the current branch and the three lists.
pub open spec fn status_text(branch: Seq<char>, c: Seq<Seq<char>>, n: Seq<Seq<char>>, u: Seq<Seq<char>>) -> Seq<char> {
    (if branch.len() > 0 {
        "On branch "@ + branch + seq!['\n']
    } else {
        "Not currently on any branch.\n"@
    }) + block_text("Changes to be committed:"@, c) + block_text("Changes not staged for commit:"@, n)
        + block_text("Untracked files:"@, u) + (if c.len() == 0 && n.len() == 0 && u.len() == 0 {
        "nothing to commit, working tree clean\n"@
    } else {
        Seq::empty()
    })
}

fn block(out: &mut Vec<char>, title: &str, ls: &Vec<String>)
    ensures
        final(out)@ == old(out)@ + block_text(title@, texts(ls@)),
{
    if ls.len() == 0 {
        assert(old(out)@ + block_text(title@, texts(ls@)) =~= old(out)@);
        return;
    }
    let ghost start = out@;
    append_str(out, title);
    out.push('\n');
    let ghost head = out@;
    let mut k: usize = 0;
    while k < ls.len()
        invariant
            k <= ls@.len(),
            out@ == head + indented(texts(ls@).take(k as int)),
        decreases ls@.len() - k,
    {
        append_str(out, "  ");
        append_str(out, ls[k].as_str());
        out.push('\n');
        assert(texts(ls@).take(k + 1).drop_last() =~= texts(ls@).take(k as int));
        assert(texts(ls@)[k as int] == ls@[k as int]@);
        k = k + 1;
    }
    assert(texts(ls@).take(ls@.len() as int) =~= texts(ls@));
    out.push('\n');
    assert(out@ =~= start + block_text(title@, texts(ls@)));
}

/// The text `status` shows.
pub fn status_report_text(branch: &str, r: &StatusReport) -> (s: String)
    ensures
        s@ == status_text(branch@, texts(r.to_commit@), texts(r.not_staged@), texts(r.untracked@)),
{
    let mut out: Vec<char> = Vec::new();
    if branch.unicode_len() > 0 {
        append_str(&mut out, "On branch ");
        append_str(&mut out, branch);
        out.push('\n');
    } else {
        append_str(&mut out, "Not currently on any branch.\n");
    }
    block(&mut out, "Changes to be committed:", &r.to_commit);
    block(&mut out, "Changes not staged for commit:", &r.not_staged);
    block(&mut out, "Untracked files:", &r.untracked);
    if r.to_commit.len() == 0 && r.not_staged.len() == 0 && r.untracked.len() == 0 {
        append_str(&mut out, "nothing to commit, working tree clean\n");
    }
    string_of_all(&out)
}

/// Each line of a file after the commit it is blamed on and its number
/// (from 1): `short(n) line`.
pub open spec fn blame_lines(short: Seq<char>, ls: Seq<Seq<char>>) -> Seq<char>
    decreases ls.len(),
{
    if ls.len() == 0 {
        Seq::empty()
    } else {
        blame_lines(short, ls.drop_last()) + short + seq!['('] + decimal(ls.len()) + seq![')', ' ']
            + ls.last() + seq!['\n']
    }
}

/// The text `blame` shows for a file's content, every line put on the
/// commit whose abbreviated id is `short`.
pub fn blame_text(short: &str, content: &str) -> (s: String)
    ensures
        s@ == blame_lines(short@, lines(content@)),
{
    let v = chars_of(content);
    let ranges = line_ranges(&v);
    let ghost ls = lines(v@);
    let mut out: Vec<char> = Vec::new();
    let mut k: usize = 0;
    while k < ranges.len()
        invariant
            ls == lines(v@),
            v@ == content@,
            ranges@.len() == ls.len(),
            forall|q: int|
                #![trigger ranges@[q]]
                0 <= q < ranges@.len() ==> {
                    &&& ranges@[q].0 <= ranges@[q].1 <= v@.len()
                    &&& ls[q] == v@.subrange(ranges@[q].0 as int, ranges@[q].1 as int)
                },
            k <= ranges@.len(),
            out@ == blame_lines(short@, ls.take(k as int)),
        decreases ranges@.len() - k,
    {
        let (a, b) = ranges[k];
        append_str(&mut out, short);
        out.push('(');
        let n = decimal_of((k + 1) as u64);
        append_chars(&mut out, &n);
        out.push(')');
        out.push(' ');
        let seg = sub_vec(&v, a, b);
        append_chars(&mut out, &seg);
        out.push('\n');
        assert(ls.take(k + 1).drop_last() =~= ls.take(k as int));
        assert(ls.take(k + 1).len() == k + 1);
        k = k + 1;
    }
    assert(ls.take(ranges@.len() as int) =~= ls);
    string_of_all(&out)
}

/// One step of a walk: waiting commits already listed are dropped from the
/// end; the first one not listed is taken. The waiting commits left, and the
/// one taken.
pub open spec fn walk_next(waiting: Seq<Seq<char>>, listed: Set<Seq<char>>) -> (Seq<Seq<char>>, Option<Seq<char>>)
    decreases waiting.len(),
{
    if waiting.len() == 0 {
        (waiting, None)
    } else if listed.contains(waiting.last()) {
        walk_next(waiting.drop_last(), listed)
    } else {
        (waiting.drop_last(), Some(waiting.last()))
    }
}

/// A walk never lists a commit twice: the commit a step takes has not been
/// listed, and was waiting.
pub proof fn lemma_walk_next_fresh(waiting: Seq<Seq<char>>, listed: Set<Seq<char>>)
    ensures
        walk_next(waiting, listed).1 matches Some(h) ==> !listed.contains(h) && waiting.contains(h),
        walk_next(waiting, listed).0.len() <= waiting.len(),
    decreases waiting.len(),
{
    if waiting.len() > 0 {
        lemma_walk_next_fresh(waiting.drop_last(), listed);
        if listed.contains(waiting.last()) {
            if let Some(h) = walk_next(waiting.drop_last(), listed).1 {
                let i = choose|i: int| 0 <= i < waiting.drop_last().len() && waiting.drop_last()[i] == h;
                assert(waiting[i] == h);
            }
        } else {
            assert(waiting[waiting.len() - 1] == waiting.last());
        }
    }
}

/// A walk over commits that lists each at most once: commits waiting to be
/// listed, last in first out, and the commits listed so far.
pub struct RevWalk {
    pending: Vec<Vec<char>>,
    seen: StrMap,
}

impl RevWalk {
    /// The commits listed so far.
    pub closed spec fn listed(&self) -> Set<Seq<char>> {
        self.seen@.dom()
    }

    /// The commits waiting, the next one last.
    pub closed spec fn waiting(&self) -> Seq<Seq<char>> {
        self.pending@.map_values(|h: Vec<char>| h@)
    }

    /// The walk is well formed.
    pub closed spec fn wf(&self) -> bool {
        self.seen.wf()
    }

    /// A walk that starts at `start`.
    pub fn new(start: &str) -> (w: RevWalk)
        ensures
            w.wf(),
            w.listed() == Set::<Seq<char>>::empty(),
            w.waiting() == seq![start@],
    {
        let mut pending: Vec<Vec<char>> = Vec::new();
        pending.push(chars_of(start));
        let w = RevWalk { pending, seen: StrMap::new() };
        assert(w.waiting() =~= seq![start@]);
        assert(w.listed() =~= Set::<Seq<char>>::empty());
        w
    }

    /// The next commit to list: waiting commits already listed are dropped;
    /// the one returned is marked listed. `None` when none is left.
    pub fn next(&mut self) -> (r: Option<String>)
        requires
            old(self).wf(),
        ensures
            final(self).wf(),
            final(self).waiting() == walk_next(old(self).waiting(), old(self).listed()).0,
            r is Some <==> walk_next(old(self).waiting(), old(self).listed()).1 is Some,
            r matches Some(h) ==> h@ == walk_next(old(self).waiting(), old(self).listed()).1->0
                && final(self).listed() == old(self).listed().insert(h@),
            r is None ==> final(self).listed() == old(self).listed(),
    {
        while self.pending.len() > 0
            invariant
                self.wf(),
                self.listed() == old(self).listed(),
                walk_next(self.waiting(), self.listed()) == walk_next(old(self).waiting(), old(self).listed()),
            decreases self.pending@.len(),
        {
            let ghost before = self.waiting();
            let h = self.pending.pop().unwrap();
            assert(self.waiting() =~= before.drop_last());
            assert(before.last() == h@);
            if !self.seen.contains_key(&h) {
                let s = string_of_all(&h);
                self.seen.insert(h, Vec::new());
                return Some(s);
            }
        }
        assert(self.waiting() =~= Seq::<Seq<char>>::empty());
        None
    }

    /// Queues the parent of the commit just listed.
    pub fn push(&mut self, parent: &str)
        requires
            old(self).wf(),
        ensures
            final(self).wf(),
            final(self).listed() == old(self).listed(),
            final(self).waiting() == old(self).waiting().push(parent@),
    {
        let ghost before = self.waiting();
        self.pending.push(chars_of(parent));
        assert(self.waiting() =~= before.push(parent@));
    }
}

} // verus!
