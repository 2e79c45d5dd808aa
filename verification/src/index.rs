//! The staging area: a text file of `hash path` lines, kept in path order.
use vstd::prelude::*;
use crate::strmap::{StrMap, keys_sorted, pairs_map, lemma_pairs_map_at, has_key};
use crate::text::{
    lines, first_index, lemma_first_index, lemma_first_index_is, lemma_lines_append,
    lemma_lines_single, chars_of, line_ranges, find_char, sub_vec, append_chars,
    string_of_all, chars_lt, lemma_chars_lt_irreflexive,
};

verus! {

/// The map that index lines describe: a line `hash path` (split at its
/// first space) maps `path` to `hash`; a later line for the same path wins;
/// a line without a space is ignored.
pub open spec fn index_map_of_lines(ls: Seq<Seq<char>>) -> Map<Seq<char>, Seq<char>>
    decreases ls.len(),
{
    if ls.len() == 0 {
        Map::empty()
    } else {
        let m = index_map_of_lines(ls.drop_last());
        let l = ls.last();
        let i = first_index(l, ' ');
        if i < 0 {
            m
        } else {
            m.insert(l.subrange(i + 1, l.len() as int), l.subrange(0, i))
        }
    }
}

/// The map that an index text describes.
pub open spec fn index_map(text: Seq<char>) -> Map<Seq<char>, Seq<char>> {
    index_map_of_lines(lines(text))
}

/// One index line for `path` staged as `hash`.
pub open spec fn index_line(path: Seq<char>, hash: Seq<char>) -> Seq<char> {
    hash + seq![' '] + path
}

/// The index text of ordered pairs (path, hash): one `hash path` line each.
pub open spec fn index_text(p: Seq<(Seq<char>, Seq<char>)>) -> Seq<char>
    decreases p.len(),
{
    if p.len() == 0 {
        Seq::empty()
    } else {
        index_text(p.drop_last()) + index_line(p.last().0, p.last().1).push('\n')
    }
}

/// Reads the index file's text into a map from path to hash.
pub fn parse_index(content: &str) -> (m: StrMap)
    ensures
        m.wf(),
        m@ == index_map(content@),
{
    let text = chars_of(content);
    let ranges = line_ranges(&text);
    let mut m = StrMap::new();
    let mut k: usize = 0;
    while k < ranges.len()
        invariant
            text@ == content@,
            ranges@.len() == lines(text@).len(),
            forall|q: int|
                #![trigger ranges@[q]]
                0 <= q < ranges@.len() ==> {
                    &&& ranges@[q].0 <= ranges@[q].1 <= text@.len()
                    &&& lines(text@)[q] == text@.subrange(ranges@[q].0 as int, ranges@[q].1 as int)
                },
            k <= ranges@.len(),
            m.wf(),
            m@ == index_map_of_lines(lines(text@).take(k as int)),
        decreases ranges@.len() - k,
    {
        let (a, b) = ranges[k];
        let ghost l = lines(text@)[k as int];
        let sp = find_char(&text, ' ', a, b);
        assert(lines(text@).take(k + 1).drop_last() =~= lines(text@).take(k as int));
        assert(lines(text@).take(k + 1).last() == l);
        if sp < b {
            let path = sub_vec(&text, sp + 1, b);
            let hash = sub_vec(&text, a, sp);
            assert(path@ =~= l.subrange(sp - a + 1, l.len() as int));
            assert(hash@ =~= l.subrange(0, sp - a));
            m.insert(path, hash);
        }
        k = k + 1;
    }
    assert(lines(text@).take(ranges@.len() as int) =~= lines(text@));
    m
}

/// The text of the index file for `m`: `hash path` lines in path order.
pub fn index_to_string(m: &StrMap) -> (s: String)
    ensures
        s@ == index_text(m.pairs()),
{
    let mut out: Vec<char> = Vec::new();
    let mut i: usize = 0;
    while i < m.len()
        invariant
            i <= m.pairs().len(),
            out@ == index_text(m.pairs().take(i as int)),
        decreases m.pairs().len() - i,
    {
        append_chars(&mut out, m.value_at(i));
        out.push(' ');
        append_chars(&mut out, m.key_at(i));
        out.push('\n');
        assert(m.pairs().take(i + 1).drop_last() =~= m.pairs().take(i as int));
        i = i + 1;
    }
    assert(m.pairs().take(m.pairs().len() as int) =~= m.pairs());
    string_of_all(&out)
}

/// Pairs that an index file can hold and give back unchanged: hashes with
/// no space or line break, paths with no line break and no trailing `\r`.
pub open spec fn index_safe(p: Seq<(Seq<char>, Seq<char>)>) -> bool {
    forall|i: int|
        0 <= i < p.len() ==> {
            &&& !(#[trigger] p[i]).1.contains(' ')
            &&& !p[i].1.contains('\n')
            &&& !p[i].0.contains('\n')
            &&& (p[i].0.len() == 0 || p[i].0.last() != '\r')
        }
}

/// The lines of an index text are the lines of its pairs.
proof fn lemma_index_text_lines(p: Seq<(Seq<char>, Seq<char>)>)
    requires
        index_safe(p),
    ensures
        lines(index_text(p)) == Seq::new(p.len(), |i: int| index_line(p[i].0, p[i].1)),
        index_text(p).len() == 0 || index_text(p).last() == '\n',
    decreases p.len(),
{
    if p.len() > 0 {
        let q = p.drop_last();
        assert(index_safe(q)) by {
            assert forall|i: int| 0 <= i < q.len() implies #[trigger] q[i] == p[i] by {}
        }
        lemma_index_text_lines(q);
        let l = index_line(p.last().0, p.last().1);
        let last = p[p.len() - 1];
        assert(!l.contains('\n')) by {
            if l.contains('\n') {
                let j = choose|j: int| 0 <= j < l.len() && l[j] == '\n';
                if j < last.1.len() {
                    assert(last.1[j] == '\n');
                } else if j > last.1.len() {
                    assert(last.0[j - last.1.len() - 1] == '\n');
                }
            }
        }
        assert(l.len() == 0 || l.last() != '\r') by {
            if last.0.len() > 0 {
                assert(l.last() == last.0.last());
            }
        }
        lemma_lines_append(index_text(q), l.push('\n'));
        lemma_lines_single(l);
        assert(lines(index_text(p)) =~= Seq::new(p.len(), |i: int| index_line(p[i].0, p[i].1)));
    }
}

/// Reading back the index lines of sorted pairs gives their map.
proof fn lemma_index_lines_map(p: Seq<(Seq<char>, Seq<char>)>)
    requires
        index_safe(p),
        keys_sorted(p),
    ensures
        index_map_of_lines(Seq::new(p.len(), |i: int| index_line(p[i].0, p[i].1))) == pairs_map(p),
    decreases p.len(),
{
    let ls = Seq::new(p.len(), |i: int| index_line(p[i].0, p[i].1));
    if p.len() == 0 {
        assert(pairs_map(p) =~= Map::<Seq<char>, Seq<char>>::empty());
    } else {
        let q = p.drop_last();
        assert(index_safe(q)) by {
            assert forall|i: int| 0 <= i < q.len() implies #[trigger] q[i] == p[i] by {}
        }
        lemma_index_lines_map(q);
        assert(ls.drop_last() =~= Seq::new(q.len(), |i: int| index_line(q[i].0, q[i].1)));
        let last = p[p.len() - 1];
        let l = index_line(last.0, last.1);
        assert forall|j: int| 0 <= j < last.1.len() implies l[j] != ' ' by {
            assert(l[j] == last.1[j]);
            if l[j] == ' ' {
                assert(last.1.contains(' '));
            }
        }
        lemma_first_index_is(l, ' ', last.1.len() as int);
        assert(l.subrange(last.1.len() as int + 1, l.len() as int) =~= last.0);
        assert(l.subrange(0, last.1.len() as int) =~= last.1);
        assert(pairs_map(p) =~= pairs_map(q).insert(last.0, last.1)) by {
            lemma_pairs_map_at(p, p.len() - 1);
            assert forall|k: Seq<char>| #[trigger] pairs_map(p).dom().contains(k)
                <==> pairs_map(q).insert(last.0, last.1).dom().contains(k) by {
                if has_key(p, k) && k != last.0 {
                    let j = choose|j: int| 0 <= j < p.len() && (#[trigger] p[j]).0 == k;
                    assert(q[j].0 == k);
                }
                if has_key(q, k) {
                    let j = choose|j: int| 0 <= j < q.len() && (#[trigger] q[j]).0 == k;
                    assert(p[j].0 == k);
                }
            }
            assert forall|k: Seq<char>| #[trigger] pairs_map(p).dom().contains(k) && k != last.0
                implies pairs_map(p)[k] == pairs_map(q)[k] by {
                let j = choose|j: int| 0 <= j < p.len() && (#[trigger] p[j]).0 == k;
                lemma_pairs_map_at(p, j);
                assert(j != p.len() - 1);
                assert(keys_sorted(q));
                lemma_pairs_map_at(q, j);
            }
        }
    }
}

/// Writing an index and reading it back gives the same map, for every map
/// whose paths and hashes an index line can hold.
pub proof fn lemma_index_roundtrip(m: StrMap)
    requires
        m.wf(),
        index_safe(m.pairs()),
    ensures
        index_map(index_text(m.pairs())) == m@,
{
    lemma_index_text_lines(m.pairs());
    lemma_index_lines_map(m.pairs());
    m.lemma_view();
}

} // verus!
