//! The repository configuration: `[section]` headers and `key = value`
//! lines, read into and written from a map of `section.key` names.
use vstd::prelude::*;
use vstd::string::*;
use crate::error::Git5Error;
use crate::strmap::{StrMap, has_key, pairs_map, lemma_pairs_map_at};
use crate::text::{
    chars_lt, chars_less, lemma_chars_lt_total, lemma_chars_lt_irreflexive,
    lines, trim, first_index, chars_of, line_ranges, trim_range, find_char, sub_vec, append_chars,
    append_str, string_of_all, string_of, has_prefix, chars_equal, is_ws, lemma_trimmed_ends,
    lemma_trim_between, lemma_trim_all_ws, lemma_first_index_is, lemma_lines_single,
    lemma_lines_append,
};

verus! {

broadcast use vstd::string::group_string_axioms;

/// Where reading a configuration stands: the current section and the
/// entries read.
pub type ConfigState = (Seq<char>, Map<Seq<char>, Seq<char>>);

/// The full name of `key` in `section`: `section.key`, or the key alone
/// outside any section.
pub open spec fn config_key(section: Seq<char>, key: Seq<char>) -> Seq<char> {
    if section.len() == 0 {
        key
    } else {
        section + seq!['.'] + key
    }
}

/// One configuration line, trimmed: blank lines and `#` comments are
/// skipped, `[name]` starts a section, and `key = value` (split at the first
/// `=`, both sides trimmed) sets an entry; anything else is skipped.
pub open spec fn config_step(st: ConfigState, line: Seq<char>) -> ConfigState {
    let l = trim(line);
    if l.len() == 0 || l[0] == '#' {
        st
    } else if l[0] == '[' && l.last() == ']' && l.len() >= 2 {
        (l.subrange(1, l.len() - 1), st.1)
    } else {
        let i = first_index(l, '=');
        if i < 0 {
            st
        } else {
            (st.0, st.1.insert(config_key(st.0, trim(l.subrange(0, i))), trim(l.subrange(i + 1, l.len() as int))))
        }
    }
}

/// The state after reading `ls`, starting outside any section with `m`.
pub open spec fn config_fold(m: Map<Seq<char>, Seq<char>>, ls: Seq<Seq<char>>) -> ConfigState
    decreases ls.len(),
{
    if ls.len() == 0 {
        (Seq::empty(), m)
    } else {
        config_step(config_fold(m, ls.drop_last()), ls.last())
    }
}

/// Reads configuration text into `config`, adding to (and overriding)
/// what it holds.
pub fn parse_config(content: &str, config: &mut StrMap)
    requires
        old(config).wf(),
    ensures
        final(config).wf(),
        final(config)@ == config_fold(old(config)@, lines(content@)).1,
{
    let v = chars_of(content);
    let ranges = line_ranges(&v);
    let ghost ls = lines(v@);
    let ghost start = config@;
    let mut section: Vec<char> = Vec::new();
    let mut k: usize = 0;
    while k < ranges.len()
        invariant
            ls == lines(v@),
            v@ == content@,
            start == old(config)@,
            ranges@.len() == ls.len(),
            forall|q: int|
                #![trigger ranges@[q]]
                0 <= q < ranges@.len() ==> {
                    &&& ranges@[q].0 <= ranges@[q].1 <= v@.len()
                    &&& ls[q] == v@.subrange(ranges@[q].0 as int, ranges@[q].1 as int)
                },
            k <= ranges@.len(),
            config.wf(),
            config_fold(start, ls.take(k as int)) == (section@, config@),
        decreases ranges@.len() - k,
    {
        let (a, b) = ranges[k];
        let ghost line = ls[k as int];
        assert(ls.take(k + 1).drop_last() =~= ls.take(k as int));
        assert(ls.take(k + 1).last() == line);
        let (s, e) = trim_range(&v, a, b);
        let ghost l = trim(line);
        assert(v@.subrange(s as int, e as int) == l);
        if s == e || v[s] == '#' {
        } else if v[s] == '[' && v[e - 1] == ']' && e - s >= 2 {
            section = sub_vec(&v, s + 1, e - 1);
            assert(section@ =~= l.subrange(1, l.len() - 1));
        } else {
            let eq = find_char(&v, '=', s, e);
            if eq < e {
                let (ks, ke) = trim_range(&v, s, eq);
                let (vs, ve) = trim_range(&v, eq + 1, e);
                assert(v@.subrange(s as int, eq as int) =~= l.subrange(0, eq - s));
                assert(v@.subrange(eq + 1, e as int) =~= l.subrange(eq - s + 1, l.len() as int));
                let key_part = sub_vec(&v, ks, ke);
                let mut key: Vec<char> = Vec::new();
                if section.len() == 0 {
                    key = key_part;
                } else {
                    append_chars(&mut key, &section);
                    key.push('.');
                    append_chars(&mut key, &key_part);
                    assert(key@ =~= section@ + seq!['.'] + key_part@);
                }
                let value = sub_vec(&v, vs, ve);
                config.insert(key, value);
            }
        }
        k = k + 1;
    }
    assert(ls.take(ranges@.len() as int) =~= ls);
}

/// The section of a full key: the text before its first `.`, or empty.
pub open spec fn section_of(k: Seq<char>) -> Seq<char> {
    let i = first_index(k, '.');
    if i < 0 {
        Seq::empty()
    } else {
        k.subrange(0, i)
    }
}

/// The key within its section: the text after the first `.`, or all of it.
pub open spec fn subkey_of(k: Seq<char>) -> Seq<char> {
    let i = first_index(k, '.');
    if i < 0 {
        k
    } else {
        k.subrange(i + 1, k.len() as int)
    }
}

/// (section, key, value) of a configuration entry.
pub type Setting = (Seq<char>, Seq<char>, Seq<char>);

/// Order of settings: by section, then by key.
pub open spec fn setting_lt(a: Setting, b: Setting) -> bool {
    chars_lt(a.0, b.0) || (a.0 == b.0 && chars_lt(a.1, b.1))
}

/// Whether two settings are for the same key of the same section.
pub open spec fn same_setting(a: Setting, b: Setting) -> bool {
    a.0 == b.0 && a.1 == b.1
}

/// `x` placed into `s` after every setting not greater than it, replacing
/// the setting it lands on when that one is for the same key.
pub open spec fn insert_setting(s: Seq<Setting>, x: Setting) -> Seq<Setting>
    decreases s.len(),
{
    if s.len() == 0 {
        seq![x]
    } else if setting_lt(x, s.last()) {
        insert_setting(s.drop_last(), x).push(s.last())
    } else if same_setting(s.last(), x) {
        s.drop_last().push(x)
    } else {
        s.push(x)
    }
}

/// Settings sorted by section, then key; of settings for the same key, the
/// last one stays.
pub open spec fn sort_settings(s: Seq<Setting>) -> Seq<Setting>
    decreases s.len(),
{
    if s.len() == 0 {
        s
    } else {
        insert_setting(sort_settings(s.drop_last()), s.last())
    }
}

/// The settings of ordered configuration pairs.
pub open spec fn settings_of(p: Seq<(Seq<char>, Seq<char>)>) -> Seq<Setting> {
    p.map_values(|e: (Seq<char>, Seq<char>)| (section_of(e.0), subkey_of(e.0), e.1))
}

/// The text of settings grouped by section: a `[section]` line where a
/// non-empty section begins, then `key = value` lines.
pub open spec fn settings_text(q: Seq<Setting>) -> Seq<char>
    decreases q.len(),
{
    if q.len() == 0 {
        Seq::empty()
    } else {
        let x = q.last();
        let starts = q.len() == 1 || q[q.len() - 2].0 != x.0;
        settings_text(q.drop_last()) + (if starts && x.0.len() > 0 {
            seq!['['] + x.0 + seq![']', '\n']
        } else {
            Seq::empty()
        }) + x.1 + " = "@ + x.2 + seq!['\n']
    }
}

/// The configuration text for `config`: settings sorted by section and key,
/// keys outside any section first.
pub open spec fn config_text(p: Seq<(Seq<char>, Seq<char>)>) -> Seq<char> {
    settings_text(sort_settings(settings_of(p)))
}

proof fn lemma_insert_setting(s: Seq<Setting>, x: Setting, pos: int)
    requires
        0 <= pos <= s.len(),
        forall|j: int| pos <= j < s.len() ==> setting_lt(x, #[trigger] s[j]),
        pos == 0 || !setting_lt(x, s[pos - 1]),
    ensures
        insert_setting(s, x) == (if pos > 0 && same_setting(s[pos - 1], x) {
            s.update(pos - 1, x)
        } else {
            s.insert(pos, x)
        }),
    decreases s.len(),
{
    if s.len() == 0 {
        assert(s.insert(pos, x) =~= seq![x]);
    } else if setting_lt(x, s.last()) {
        if pos == s.len() {
            assert(!setting_lt(x, s[pos - 1]));
        }
        let t = s.drop_last();
        assert forall|j: int| pos <= j < t.len() implies setting_lt(x, #[trigger] t[j]) by {
            assert(t[j] == s[j]);
        }
        lemma_insert_setting(t, x, pos);
        if pos > 0 {
            assert(t[pos - 1] == s[pos - 1]);
        }
        assert(t.insert(pos, x).push(s.last()) =~= s.insert(pos, x));
        if pos > 0 {
            assert(t.update(pos - 1, x).push(s.last()) =~= s.update(pos - 1, x));
        }
    } else {
        if pos < s.len() {
            assert(setting_lt(x, s[s.len() - 1]));
        }
        assert(s.push(x) =~= s.insert(pos, x));
        if pos > 0 {
            assert(s.drop_last().push(x) =~= s.update(pos - 1, x));
        }
    }
}

/// Splits a full key into its section and its key.
fn split_key(k: &Vec<char>) -> (r: (Vec<char>, Vec<char>))
    ensures
        r.0@ == section_of(k@),
        r.1@ == subkey_of(k@),
{
    let d = find_char(k, '.', 0, k.len());
    assert(k@.subrange(0, k@.len() as int) =~= k@);
    if d == k.len() {
        (Vec::new(), sub_vec(k, 0, k.len()))
    } else {
        (sub_vec(k, 0, d), sub_vec(k, d + 1, k.len()))
    }
}

fn setting_less(a: &(Vec<char>, Vec<char>, Vec<char>), b: &(Vec<char>, Vec<char>, Vec<char>)) -> (r: bool)
    ensures
        r == setting_lt((a.0@, a.1@, a.2@), (b.0@, b.1@, b.2@)),
{
    chars_less(&a.0, &b.0) || (chars_equal(&a.0, &b.0) && chars_less(&a.1, &b.1))
}

/// The configuration text `config` is saved as.
pub fn config_to_string(config: &StrMap) -> (s: String)
    ensures
        s@ == config_text(config.pairs()),
{
    let ghost all = settings_of(config.pairs());
    let mut sorted: Vec<(Vec<char>, Vec<char>, Vec<char>)> = Vec::new();
    let mut k: usize = 0;
    while k < config.len()
        invariant
            all == settings_of(config.pairs()),
            k <= config.pairs().len(),
            sorted@.map_values(|e: (Vec<char>, Vec<char>, Vec<char>)| (e.0@, e.1@, e.2@)) == sort_settings(
                all.take(k as int),
            ),
        decreases config.pairs().len() - k,
    {
        let (sec, sub) = split_key(config.key_at(k));
        let vref = config.value_at(k);
        let val = sub_vec(vref, 0, vref.len());
        assert(vref@.subrange(0, vref@.len() as int) =~= vref@);
        let x = (sec, sub, val);
        let ghost xv = (x.0@, x.1@, x.2@);
        assert(xv == all[k as int]);
        let ghost cur = sorted@.map_values(|e: (Vec<char>, Vec<char>, Vec<char>)| (e.0@, e.1@, e.2@));
        let mut pos = sorted.len();
        while pos > 0 && setting_less(&x, &sorted[pos - 1])
            invariant
                pos <= sorted@.len(),
                xv == (x.0@, x.1@, x.2@),
                cur == sorted@.map_values(|e: (Vec<char>, Vec<char>, Vec<char>)| (e.0@, e.1@, e.2@)),
                forall|j: int| pos <= j < cur.len() ==> setting_lt(xv, #[trigger] cur[j]),
            decreases pos,
        {
            pos = pos - 1;
        }
        proof {
            lemma_insert_setting(cur, xv, pos as int);
        }
        let same = pos > 0 && chars_equal(&sorted[pos - 1].0, &x.0) && chars_equal(
            &sorted[pos - 1].1,
            &x.1,
        );
        if same {
            sorted.set(pos - 1, x);
            assert(sorted@.map_values(|e: (Vec<char>, Vec<char>, Vec<char>)| (e.0@, e.1@, e.2@)) =~= cur.update(
                pos - 1,
                xv,
            ));
        } else {
            sorted.insert(pos, x);
            assert(sorted@.map_values(|e: (Vec<char>, Vec<char>, Vec<char>)| (e.0@, e.1@, e.2@)) =~= cur.insert(
                pos as int,
                xv,
            ));
        }
        assert(all.take(k + 1).drop_last() =~= all.take(k as int));
        k = k + 1;
    }
    assert(all.take(all.len() as int) =~= all);
    let ghost q = sort_settings(all);
    let mut out: Vec<char> = Vec::new();
    let mut j: usize = 0;
    while j < sorted.len()
        invariant
            q == sorted@.map_values(|e: (Vec<char>, Vec<char>, Vec<char>)| (e.0@, e.1@, e.2@)),
            j <= sorted@.len(),
            out@ == settings_text(q.take(j as int)),
        decreases sorted@.len() - j,
    {
        let starts = j == 0 || !chars_equal(&sorted[j - 1].0, &sorted[j].0);
        let ghost before = out@;
        if starts && sorted[j].0.len() > 0 {
            out.push('[');
            append_chars(&mut out, &sorted[j].0);
            out.push(']');
            out.push('\n');
        }
        append_chars(&mut out, &sorted[j].1);
        append_str(&mut out, " = ");
        append_chars(&mut out, &sorted[j].2);
        out.push('\n');
        let ghost qj = q.take(j + 1);
        assert(qj.drop_last() =~= q.take(j as int));
        assert(qj.last() == q[j as int]);
        if j > 0 {
            assert(qj[qj.len() - 2] == q[j - 1]);
        }
        assert(out@ =~= settings_text(qj));
        j = j + 1;
    }
    assert(q.take(q.len() as int) =~= q);
    string_of_all(&out)
}

/// A setting that one configuration line holds and gives back: no line
/// break in it, key and value without surrounding white space, no `=` in the
/// key, and a key that starts neither a comment nor a section header.
pub open spec fn setting_ok(x: Setting) -> bool {
    &&& !x.0.contains('\n')
    &&& !x.1.contains('\n')
    &&& !x.2.contains('\n')
    &&& trim(x.1) == x.1
    &&& trim(x.2) == x.2
    &&& !x.1.contains('=')
    &&& x.1.len() > 0 ==> x.1[0] != '#' && x.1[0] != '['
}

/// The line a setting is written as.
pub open spec fn setting_line(x: Setting) -> Seq<char> {
    x.1 + " = "@ + x.2
}

/// The header line of a section.
pub open spec fn header_line(section: Seq<char>) -> Seq<char> {
    seq!['['] + section + seq![']']
}

/// The lines that `settings_text` writes for `q`.
pub open spec fn settings_lines(q: Seq<Setting>) -> Seq<Seq<char>>
    decreases q.len(),
{
    if q.len() == 0 {
        Seq::empty()
    } else {
        let x = q.last();
        let starts = q.len() == 1 || q[q.len() - 2].0 != x.0;
        settings_lines(q.drop_last()) + (if starts && x.0.len() > 0 {
            seq![header_line(x.0)]
        } else {
            Seq::empty()
        }) + seq![setting_line(x)]
    }
}

proof fn lemma_setting_line_shape(x: Setting)
    requires
        setting_ok(x),
    ensures
        !setting_line(x).contains('\n'),
        setting_line(x).len() == x.1.len() + 3 + x.2.len(),
        setting_line(x)[x.1.len() as int] == ' ',
        setting_line(x)[x.1.len() as int + 1] == '=',
        setting_line(x)[x.1.len() as int + 2] == ' ',
        forall|k: int| 0 <= k < x.1.len() ==> setting_line(x)[k] == #[trigger] x.1[k],
        forall|k: int| 0 <= k < x.2.len() ==> setting_line(x)[x.1.len() + 3 + k] == #[trigger] x.2[k],
        setting_line(x).last() != '\r',
{
    reveal_strlit(" = ");
    let l = setting_line(x);
    let n = x.1.len() as int;
    assert forall|k: int| 0 <= k < x.1.len() implies l[k] == #[trigger] x.1[k] by {}
    assert forall|k: int| 0 <= k < x.2.len() implies l[n + 3 + k] == #[trigger] x.2[k] by {}
    if l.contains('\n') {
        let i = choose|i: int| 0 <= i < l.len() && l[i] == '\n';
        if i < n {
            assert(x.1[i] == '\n');
        } else if i >= n + 3 {
            assert(x.2[i - n - 3] == '\n');
        }
    }
    lemma_trimmed_ends(x.2);
    assert(is_ws('\r'));
}

/// The text of settings reads back as their lines.
proof fn lemma_settings_text_lines(q: Seq<Setting>)
    requires
        forall|j: int| 0 <= j < q.len() ==> setting_ok(#[trigger] q[j]),
    ensures
        lines(settings_text(q)) == settings_lines(q),
        settings_text(q).len() == 0 || settings_text(q).last() == '\n',
    decreases q.len(),
{
    if q.len() > 0 {
        let prev = q.drop_last();
        assert forall|j: int| 0 <= j < prev.len() implies setting_ok(#[trigger] prev[j]) by {
            assert(prev[j] == q[j]);
        }
        lemma_settings_text_lines(prev);
        let x = q.last();
        assert(setting_ok(q[q.len() - 1]));
        let starts = q.len() == 1 || q[q.len() - 2].0 != x.0;
        let t = settings_text(prev);
        let l = setting_line(x);
        lemma_setting_line_shape(x);
        lemma_lines_single(l);
        if starts && x.0.len() > 0 {
            let h = header_line(x.0);
            if h.contains('\n') {
                let i = choose|i: int| 0 <= i < h.len() && h[i] == '\n';
                assert(x.0[i - 1] == '\n');
            }
            lemma_lines_single(h);
            assert(settings_text(q) =~= t + (h.push('\n') + l.push('\n')));
            lemma_lines_append(t, h.push('\n') + l.push('\n'));
            lemma_lines_append(h.push('\n'), l.push('\n'));
            assert(settings_lines(q) =~= settings_lines(prev) + (seq![h] + seq![l]));
        } else {
            assert(settings_text(q) =~= t + l.push('\n'));
            lemma_lines_append(t, l.push('\n'));
            assert(settings_lines(q) =~= settings_lines(prev) + seq![l]);
        }
    }
}

proof fn lemma_fold_push(m: Map<Seq<char>, Seq<char>>, ls: Seq<Seq<char>>, l: Seq<char>)
    ensures
        config_fold(m, ls.push(l)) == config_step(config_fold(m, ls), l),
{
    assert(ls.push(l).drop_last() =~= ls);
}

/// A header line enters its section.
proof fn lemma_header_step(st: ConfigState, section: Seq<char>)
    ensures
        config_step(st, header_line(section)) == (section, st.1),
{
    let h = header_line(section);
    assert(!is_ws('['));
    assert(!is_ws(']'));
    lemma_trim_between(h, 0, h.len() as int);
    assert(h.subrange(0, h.len() as int) =~= h);
    assert(h.subrange(1, h.len() - 1) =~= section);
}

/// A setting line sets its key in the current section.
proof fn lemma_setting_step(st: ConfigState, x: Setting)
    requires
        setting_ok(x),
    ensures
        config_step(st, setting_line(x)) == (st.0, st.1.insert(config_key(st.0, x.1), x.2)),
{
    let l = setting_line(x);
    lemma_setting_line_shape(x);
    let n = x.1.len() as int;
    let vl = x.2.len() as int;
    lemma_trimmed_ends(x.1);
    lemma_trimmed_ends(x.2);
    assert(is_ws(' '));
    assert(!is_ws('='));
    let a: int = if n > 0 {
        0
    } else {
        1
    };
    let b: int = if vl > 0 {
        l.len() as int
    } else {
        n + 2
    };
    if n > 0 {
        assert(l[0] == x.1[0]);
    }
    if vl > 0 {
        assert(l[l.len() - 1] == x.2[vl - 1]);
    }
    lemma_trim_between(l, a, b);
    let t = l.subrange(a, b);
    assert(t[0] == l[a]);
    let i = n + 1 - a;
    assert forall|j: int| 0 <= j < i implies t[j] != '=' by {
        assert(t[j] == l[a + j]);
        if a + j < n {
            assert(l[a + j] == x.1[a + j]);
            if x.1[a + j] == '=' {
                assert(x.1.contains('='));
            }
        }
    }
    assert(t[i] == l[n + 1]);
    lemma_first_index_is(t, '=', i);
    let left = t.subrange(0, i);
    let right = t.subrange(i + 1, t.len() as int);
    if n > 0 {
        assert(left =~= x.1.push(' '));
        assert(left[n - 1] == x.1[n - 1]);
        lemma_trim_between(left, 0, n);
        assert(left.subrange(0, n) =~= x.1);
    } else {
        assert(left =~= Seq::<char>::empty());
        lemma_trim_all_ws(left);
        assert(x.1 =~= Seq::<char>::empty());
    }
    if vl > 0 {
        assert(right =~= seq![' '] + x.2);
        assert(right[1] == x.2[0]);
        assert(right[vl] == x.2[vl - 1]);
        lemma_trim_between(right, 1, vl + 1);
        assert(right.subrange(1, vl + 1) =~= x.2);
    } else {
        assert(right =~= Seq::<char>::empty());
        lemma_trim_all_ws(right);
        assert(x.2 =~= Seq::<char>::empty());
    }
}

/// The entries that settings set when read in order into `m`.
pub open spec fn settings_map(m: Map<Seq<char>, Seq<char>>, q: Seq<Setting>) -> Map<Seq<char>, Seq<char>>
    decreases q.len(),
{
    if q.len() == 0 {
        m
    } else {
        settings_map(m, q.drop_last()).insert(config_key(q.last().0, q.last().1), q.last().2)
    }
}

/// Settings outside any section come before all others.
pub open spec fn plain_first(q: Seq<Setting>) -> bool {
    forall|i: int, j: int|
        0 <= i < j < q.len() && (#[trigger] q[j]).0.len() == 0 ==> (#[trigger] q[i]).0.len() == 0
}

/// Reading the lines of settings sets each in its section, in order.
proof fn lemma_settings_fold(m: Map<Seq<char>, Seq<char>>, q: Seq<Setting>)
    requires
        forall|j: int| 0 <= j < q.len() ==> setting_ok(#[trigger] q[j]),
        plain_first(q),
    ensures
        config_fold(m, settings_lines(q)) == (if q.len() == 0 {
            Seq::<char>::empty()
        } else {
            q.last().0
        }, settings_map(m, q)),
    decreases q.len(),
{
    if q.len() == 0 {
        assert(settings_lines(q) =~= Seq::<Seq<char>>::empty());
    } else {
        let prev = q.drop_last();
        assert forall|j: int| 0 <= j < prev.len() implies setting_ok(#[trigger] prev[j]) by {
            assert(prev[j] == q[j]);
        }
        assert forall|i: int, j: int|
            0 <= i < j < prev.len() && (#[trigger] prev[j]).0.len() == 0 implies (#[trigger] prev[i]).0.len() == 0 by {
            assert(prev[i] == q[i] && prev[j] == q[j]);
        }
        lemma_settings_fold(m, prev);
        let x = q.last();
        assert(setting_ok(q[q.len() - 1]));
        let starts = q.len() == 1 || q[q.len() - 2].0 != x.0;
        let pl = settings_lines(prev);
        let st0 = config_fold(m, pl);
        if starts && x.0.len() > 0 {
            let h = header_line(x.0);
            let l = setting_line(x);
            assert(settings_lines(q) =~= pl.push(h).push(l));
            lemma_fold_push(m, pl.push(h), l);
            lemma_fold_push(m, pl, h);
            lemma_header_step(st0, x.0);
            lemma_setting_step((x.0, st0.1), x);
        } else {
            let l = setting_line(x);
            assert(settings_lines(q) =~= pl.push(l));
            lemma_fold_push(m, pl, l);
            if q.len() > 1 {
                assert(prev.last() == q[q.len() - 2]);
                if starts {
                    assert(q[q.len() - 1].0.len() == 0);
                    assert(q[q.len() - 2].0.len() == 0);
                    assert(q[q.len() - 2].0 =~= x.0);
                }
            } else {
                assert(x.0 =~= Seq::<char>::empty());
            }
            lemma_setting_step(st0, x);
        }
    }
}

/// No two settings are for the same key of the same section.
pub open spec fn settings_distinct(s: Seq<Setting>) -> bool {
    forall|i: int, j: int| 0 <= i < j < s.len() ==> !same_setting(#[trigger] s[i], #[trigger] s[j])
}

proof fn lemma_lt_plain(x: Setting, y: Setting)
    requires
        setting_lt(x, y),
        y.0.len() == 0,
    ensures
        x.0.len() == 0,
{
    if x.0.len() > 0 {
        assert(!chars_lt(x.0, y.0));
    }
}

/// Placing a setting for a new key keeps every other setting, adds it once,
/// and keeps settings outside any section first.
proof fn lemma_insert_setting_content(s: Seq<Setting>, x: Setting)
    requires
        settings_distinct(s),
        forall|j: int| 0 <= j < s.len() ==> !same_setting(#[trigger] s[j], x),
    ensures
        insert_setting(s, x).len() == s.len() + 1,
        forall|y: Setting| #[trigger] insert_setting(s, x).contains(y) <==> (y == x || s.contains(y)),
        settings_distinct(insert_setting(s, x)),
        plain_first(s) ==> plain_first(insert_setting(s, x)),
    decreases s.len(),
{
    if s.len() == 0 {
        let r = insert_setting(s, x);
        assert(r =~= seq![x]);
        assert forall|y: Setting| #[trigger] r.contains(y) <==> (y == x || s.contains(y)) by {
            if y == x {
                assert(r[0] == x);
            }
        }
    } else {
        let last = s.last();
        assert(!same_setting(s[s.len() - 1], x));
        if setting_lt(x, last) {
            let t = s.drop_last();
            assert forall|j: int| 0 <= j < t.len() implies !same_setting(#[trigger] t[j], x) by {
                assert(t[j] == s[j]);
            }
            assert forall|i: int, j: int| 0 <= i < j < t.len() implies !same_setting(#[trigger] t[i], #[trigger] t[j]) by {
                assert(t[i] == s[i] && t[j] == s[j]);
            }
            if plain_first(s) {
                assert forall|i: int, j: int|
                    0 <= i < j < t.len() && (#[trigger] t[j]).0.len() == 0 implies (#[trigger] t[i]).0.len() == 0 by {
                    assert(t[i] == s[i] && t[j] == s[j]);
                }
            }
            lemma_insert_setting_content(t, x);
            let r = insert_setting(t, x);
            let w = r.push(last);
            assert(insert_setting(s, x) == w);
            assert forall|y: Setting| #[trigger] w.contains(y) <==> (y == x || s.contains(y)) by {
                if w.contains(y) {
                    let i = choose|i: int| 0 <= i < w.len() && w[i] == y;
                    if i < r.len() {
                        assert(r[i] == y);
                        assert(r.contains(y));
                        if t.contains(y) {
                            let q = choose|q: int| 0 <= q < t.len() && t[q] == y;
                            assert(s[q] == y);
                        }
                    } else {
                        assert(s[s.len() - 1] == y);
                    }
                }
                if y == x {
                    assert(r.contains(x));
                    let i = choose|i: int| 0 <= i < r.len() && r[i] == x;
                    assert(w[i] == x);
                } else if s.contains(y) {
                    let q = choose|q: int| 0 <= q < s.len() && s[q] == y;
                    if q < s.len() - 1 {
                        assert(t[q] == y);
                        assert(t.contains(y));
                        assert(r.contains(y));
                        let i = choose|i: int| 0 <= i < r.len() && r[i] == y;
                        assert(w[i] == y);
                    } else {
                        assert(w[w.len() - 1] == y);
                    }
                }
            }
            assert forall|i: int, j: int| 0 <= i < j < w.len() implies !same_setting(#[trigger] w[i], #[trigger] w[j]) by {
                if j < r.len() {
                    assert(w[i] == r[i] && w[j] == r[j]);
                } else {
                    assert(w[j] == last);
                    assert(w[i] == r[i]);
                    assert(r.contains(r[i]));
                    if r[i] != x {
                        assert(t.contains(r[i]));
                        let q = choose|q: int| 0 <= q < t.len() && t[q] == r[i];
                        assert(s[q] == r[i]);
                        assert(!same_setting(s[q], s[s.len() - 1]));
                    }
                }
            }
            if plain_first(s) {
                assert forall|i: int, j: int|
                    0 <= i < j < w.len() && (#[trigger] w[j]).0.len() == 0 implies (#[trigger] w[i]).0.len() == 0 by {
                    if j < r.len() {
                        assert(w[i] == r[i] && w[j] == r[j]);
                    } else {
                        assert(w[j] == last);
                        assert(w[i] == r[i]);
                        assert(r.contains(r[i]));
                        if r[i] == x {
                            lemma_lt_plain(x, last);
                        } else {
                            assert(t.contains(r[i]));
                            let q = choose|q: int| 0 <= q < t.len() && t[q] == r[i];
                            assert(s[q] == r[i]);
                            assert(s[s.len() - 1].0.len() == 0);
                        }
                    }
                }
            }
        } else {
            let w = s.push(x);
            assert(insert_setting(s, x) == w);
            assert forall|y: Setting| #[trigger] w.contains(y) <==> (y == x || s.contains(y)) by {
                if w.contains(y) {
                    let i = choose|i: int| 0 <= i < w.len() && w[i] == y;
                    if i < s.len() {
                        assert(s[i] == y);
                    }
                }
                if y == x {
                    assert(w[s.len() as int] == x);
                } else if s.contains(y) {
                    let q = choose|q: int| 0 <= q < s.len() && s[q] == y;
                    assert(w[q] == y);
                }
            }
            assert forall|i: int, j: int| 0 <= i < j < w.len() implies !same_setting(#[trigger] w[i], #[trigger] w[j]) by {
                if j < s.len() {
                    assert(w[i] == s[i] && w[j] == s[j]);
                } else {
                    assert(w[i] == s[i]);
                }
            }
            if plain_first(s) {
                assert forall|i: int, j: int|
                    0 <= i < j < w.len() && (#[trigger] w[j]).0.len() == 0 implies (#[trigger] w[i]).0.len() == 0 by {
                    if j < s.len() {
                        assert(w[i] == s[i] && w[j] == s[j]);
                    } else {
                        assert(w[i] == s[i]);
                        if last.0.len() > 0 {
                            assert(chars_lt(x.0, last.0));
                        }
                        if i < s.len() - 1 {
                            assert(s[s.len() - 1].0.len() == 0);
                        }
                    }
                }
            }
        }
    }
}

/// Sorting settings for distinct keys keeps each of them once, and puts
/// those outside any section first.
proof fn lemma_sort_settings_content(s: Seq<Setting>)
    requires
        settings_distinct(s),
    ensures
        sort_settings(s).len() == s.len(),
        forall|y: Setting| #[trigger] sort_settings(s).contains(y) <==> s.contains(y),
        settings_distinct(sort_settings(s)),
        plain_first(sort_settings(s)),
    decreases s.len(),
{
    if s.len() > 0 {
        let t = s.drop_last();
        assert forall|i: int, j: int| 0 <= i < j < t.len() implies !same_setting(#[trigger] t[i], #[trigger] t[j]) by {
            assert(t[i] == s[i] && t[j] == s[j]);
        }
        lemma_sort_settings_content(t);
        let q = sort_settings(t);
        let last = s.last();
        assert forall|j: int| 0 <= j < q.len() implies !same_setting(#[trigger] q[j], last) by {
            assert(q.contains(q[j]));
            let k = choose|k: int| 0 <= k < t.len() && t[k] == q[j];
            assert(s[k] == q[j]);
            assert(!same_setting(s[k], s[s.len() - 1]));
        }
        lemma_insert_setting_content(q, last);
        assert forall|y: Setting| #[trigger] sort_settings(s).contains(y) <==> s.contains(y) by {
            if s.contains(y) && y != last {
                let k = choose|k: int| 0 <= k < s.len() && s[k] == y;
                assert(k < s.len() - 1);
                assert(t[k] == y);
                assert(t.contains(y));
            }
            if t.contains(y) {
                let k = choose|k: int| 0 <= k < t.len() && t[k] == y;
                assert(s[k] == y);
            }
            if y == last {
                assert(s[s.len() - 1] == y);
            }
        }
    }
}

/// The full name of a setting.
pub open spec fn setting_key(x: Setting) -> Seq<char> {
    config_key(x.0, x.1)
}

/// Settings read in order into `m` set each of their keys to its value,
/// when no key comes twice, and set nothing else.
proof fn lemma_settings_map_at(m: Map<Seq<char>, Seq<char>>, q: Seq<Setting>)
    requires
        forall|i: int, j: int| 0 <= i < j < q.len() ==> setting_key(#[trigger] q[i]) != setting_key(#[trigger] q[j]),
    ensures
        forall|j: int| 0 <= j < q.len() ==> settings_map(m, q).dom().contains(setting_key(#[trigger] q[j]))
            && settings_map(m, q)[setting_key(q[j])] == q[j].2,
        forall|k: Seq<char>| #[trigger] settings_map(m, q).dom().contains(k) ==> m.dom().contains(k) || exists|j: int|
            0 <= j < q.len() && setting_key(#[trigger] q[j]) == k,
    decreases q.len(),
{
    if q.len() > 0 {
        let t = q.drop_last();
        assert forall|i: int, j: int| 0 <= i < j < t.len() implies setting_key(#[trigger] t[i]) != setting_key(#[trigger] t[j]) by {
            assert(t[i] == q[i] && t[j] == q[j]);
        }
        lemma_settings_map_at(m, t);
        let last = q.last();
        assert forall|j: int| 0 <= j < q.len() implies settings_map(m, q).dom().contains(setting_key(#[trigger] q[j]))
            && settings_map(m, q)[setting_key(q[j])] == q[j].2 by {
            if j < q.len() - 1 {
                assert(t[j] == q[j]);
                assert(setting_key(q[j]) != setting_key(q[q.len() - 1]));
            }
        }
        assert forall|k: Seq<char>| #[trigger] settings_map(m, q).dom().contains(k) implies m.dom().contains(k) || exists|j: int|
            0 <= j < q.len() && setting_key(#[trigger] q[j]) == k by {
            if k == setting_key(last) {
                assert(setting_key(q[q.len() - 1]) == k);
            } else {
                assert(settings_map(m, t).dom().contains(k));
                if !m.dom().contains(k) {
                    let j = choose|j: int| 0 <= j < t.len() && setting_key(#[trigger] t[j]) == k;
                    assert(q[j] == t[j]);
                }
            }
        }
    }
}

/// A configuration entry that the saved text holds and gives back: no line
/// break in its name or value, a name that does not start with `.`, a value
/// without surrounding white space, and a key within its section (the part
/// of the name after its first `.`, or all of it) without surrounding white
/// space, without `=`, and starting with neither `#` nor `[`.
pub open spec fn entry_ok(k: Seq<char>, v: Seq<char>) -> bool {
    let sub = subkey_of(k);
    &&& !k.contains('\n')
    &&& !v.contains('\n')
    &&& (k.len() == 0 || k[0] != '.')
    &&& trim(v) == v
    &&& trim(sub) == sub
    &&& !sub.contains('=')
    &&& sub.len() > 0 ==> sub[0] != '#' && sub[0] != '['
}

proof fn lemma_entry_setting(k: Seq<char>, v: Seq<char>)
    requires
        entry_ok(k, v),
    ensures
        setting_ok((section_of(k), subkey_of(k), v)),
        config_key(section_of(k), subkey_of(k)) == k,
{
    crate::text::lemma_first_index(k, '.');
    let i = first_index(k, '.');
    if i >= 0 {
        assert(i != 0);
        let sec = k.subrange(0, i);
        let sub = k.subrange(i + 1, k.len() as int);
        assert(sec + seq!['.'] + sub =~= k);
        if sec.contains('\n') {
            let q = choose|q: int| 0 <= q < sec.len() && sec[q] == '\n';
            assert(k[q] == '\n');
        }
        if sub.contains('\n') {
            let q = choose|q: int| 0 <= q < sub.len() && sub[q] == '\n';
            assert(k[i + 1 + q] == '\n');
        }
    } else {
        assert(!Seq::<char>::empty().contains('\n'));
    }
}

/// Saving a configuration and reading the text back gives the same entries,
/// for every configuration whose entries a line can hold.
pub proof fn lemma_config_roundtrip(m: StrMap)
    requires
        m.wf(),
        forall|i: int| 0 <= i < m.pairs().len() ==> entry_ok((#[trigger] m.pairs()[i]).0, m.pairs()[i].1),
    ensures
        config_fold(Map::empty(), lines(config_text(m.pairs()))).1 == m@,
{
    let p = m.pairs();
    let s = settings_of(p);
    assert forall|i: int| 0 <= i < s.len() implies setting_ok(#[trigger] s[i]) && setting_key(s[i]) == p[i].0 by {
        lemma_entry_setting(p[i].0, p[i].1);
    }
    assert forall|i: int, j: int| 0 <= i < j < s.len() implies !same_setting(#[trigger] s[i], #[trigger] s[j]) by {
        assert(setting_ok(s[i]) && setting_key(s[i]) == p[i].0);
        assert(setting_ok(s[j]) && setting_key(s[j]) == p[j].0);
        assert(chars_lt(p[i].0, p[j].0));
        lemma_chars_lt_irreflexive(p[i].0);
    }
    lemma_sort_settings_content(s);
    let q = sort_settings(s);
    assert forall|j: int| 0 <= j < q.len() implies exists|i: int| 0 <= i < s.len() && s[i] == #[trigger] q[j] by {
        assert(q.contains(q[j]));
    }
    assert forall|j: int| 0 <= j < q.len() implies setting_ok(#[trigger] q[j]) by {
        let i = choose|i: int| 0 <= i < s.len() && s[i] == q[j];
        assert(setting_ok(s[i]));
    }
    assert forall|i: int, j: int| 0 <= i < j < q.len() implies setting_key(#[trigger] q[i]) != setting_key(#[trigger] q[j]) by {
        let a = choose|a: int| 0 <= a < s.len() && s[a] == q[i];
        let b = choose|b: int| 0 <= b < s.len() && s[b] == q[j];
        assert(setting_key(s[a]) == p[a].0);
        assert(setting_key(s[b]) == p[b].0);
        if a < b {
            assert(chars_lt(p[a].0, p[b].0));
            lemma_chars_lt_irreflexive(p[a].0);
        } else if b < a {
            assert(chars_lt(p[b].0, p[a].0));
            lemma_chars_lt_irreflexive(p[a].0);
        } else {
            assert(!same_setting(q[i], q[j]));
        }
    }
    lemma_settings_text_lines(q);
    lemma_settings_fold(Map::empty(), q);
    lemma_settings_map_at(Map::empty(), q);
    let r = settings_map(Map::empty(), q);
    m.lemma_view();
    assert forall|k: Seq<char>| #[trigger] r.dom().contains(k) <==> pairs_map(p).dom().contains(k) by {
        if r.dom().contains(k) {
            let j = choose|j: int| 0 <= j < q.len() && setting_key(#[trigger] q[j]) == k;
            let i = choose|i: int| 0 <= i < s.len() && s[i] == q[j];
            assert(p[i].0 == k);
            assert(has_key(p, k));
        }
        if pairs_map(p).dom().contains(k) {
            let i = choose|i: int| 0 <= i < p.len() && (#[trigger] p[i]).0 == k;
            assert(s.contains(s[i]));
            assert(q.contains(s[i]));
            let j = choose|j: int| 0 <= j < q.len() && q[j] == s[i];
            assert(setting_key(q[j]) == k);
        }
    }
    assert forall|k: Seq<char>| #[trigger] r.dom().contains(k) implies r[k] == pairs_map(p)[k] by {
        let j = choose|j: int| 0 <= j < q.len() && setting_key(#[trigger] q[j]) == k;
        let i = choose|i: int| 0 <= i < s.len() && s[i] == q[j];
        lemma_pairs_map_at(p, i);
    }
    assert(r =~= pairs_map(p));
}

} // verus!
