use git5::diff::diff_text;
use git5::report::{blame_text, status_report_text, RevWalk};
use git5::status::{diff_tree_lines, status_report};
use git5::strmap::StrMap;

fn map(pairs: &[(&str, &str)]) -> StrMap {
    let mut m = StrMap::new();
    for (k, v) in pairs {
        m.insert_str(k, v);
    }
    m
}

#[test]
fn status_report_lists_changes() {
    let head = map(&[("a", "h1"), ("b", "h2"), ("d", "h4")]);
    let index = map(&[("a", "h1x"), ("b", "h2"), ("c", "h3")]);
    let work = map(&[("a", "h1x"), ("b", "h2y"), ("c", "h3"), ("e", "h5")]);
    let r = status_report(&head, &index, &work);
    assert_eq!(r.to_commit, vec!["deleted:    d", "modified:   a", "new file:   c"]);
    assert_eq!(r.not_staged, vec!["deleted:    d", "modified:   b"]);
    assert_eq!(r.untracked, vec!["e"]);
    assert_eq!(
        status_report_text("main", &r),
        "On branch main\nChanges to be committed:\n  deleted:    d\n  modified:   a\n  new file:   c\n\n\
Changes not staged for commit:\n  deleted:    d\n  modified:   b\n\nUntracked files:\n  e\n\n"
    );
}

#[test]
fn status_of_unstaged_file_against_head() {
    let head = map(&[("a", "h1")]);
    let index = map(&[]);
    let work = map(&[("a", "h9")]);
    let r = status_report(&head, &index, &work);
    assert_eq!(r.to_commit, vec!["deleted:    a"]);
    assert_eq!(r.not_staged, vec!["modified:   a"]);
    assert!(r.untracked.is_empty());
}

#[test]
fn status_clean_tree() {
    let m = map(&[("a", "h1"), ("b", "h2")]);
    let r = status_report(&m, &m, &m);
    assert!(r.to_commit.is_empty() && r.not_staged.is_empty() && r.untracked.is_empty());
    assert_eq!(status_report_text("main", &r), "On branch main\nnothing to commit, working tree clean\n");
    assert_eq!(
        status_report_text("", &r),
        "Not currently on any branch.\nnothing to commit, working tree clean\n"
    );
}

#[test]
fn status_new_file_is_untracked() {
    let empty = map(&[]);
    let work = map(&[("new.txt", "h")]);
    let r = status_report(&empty, &empty, &work);
    assert_eq!(r.untracked, vec!["new.txt"]);
    assert_eq!(status_report_text("main", &r), "On branch main\nUntracked files:\n  new.txt\n\n");
}

#[test]
fn diff_tree_lines_compares_listings() {
    let f1 = map(&[("a", "1"), ("b", "2")]);
    let f2 = map(&[("b", "3"), ("c", "4")]);
    assert_eq!(diff_tree_lines(&f1, &f2), vec!["+1 a", "-3 b", "+2 b", "-4 c"]);
    assert!(diff_tree_lines(&f1, &f1).is_empty());
}

#[test]
fn diff_text_shows_line_changes() {
    assert_eq!(diff_text("a\nb\n", "a\nc\n"), " a\n-b\n+c\n");
    assert_eq!(diff_text("a", "b"), "-a\n+b\n");
    assert_eq!(diff_text("", "x\n"), "+x\n");
    assert_eq!(diff_text("same\n", "same\n"), "");
}

#[test]
fn blame_numbers_lines() {
    assert_eq!(blame_text("abc1234", "x\ny"), "abc1234(1) x\nabc1234(2) y\n");
    assert_eq!(blame_text("abc1234", ""), "");
}

#[test]
fn rev_walk_lists_each_commit_once() {
    let mut w = RevWalk::new("c");
    assert_eq!(w.next(), Some("c".to_string()));
    w.push("b");
    assert_eq!(w.next(), Some("b".to_string()));
    w.push("c");
    assert_eq!(w.next(), None);
}

#[test]
fn diff_base_prefers_the_index() {
    let index = map(&[("a", "i1")]);
    let head = map(&[("a", "h1"), ("b", "h2")]);
    assert_eq!(git5::diff::diff_base(&index, &head, "a"), Some("i1".to_string()));
    assert_eq!(git5::diff::diff_base(&index, &head, "b"), Some("h2".to_string()));
    assert_eq!(git5::diff::diff_base(&index, &head, "c"), None);
    assert_eq!(git5::diff::diff_base_text("blob", b"x\xff"), "x\u{FFFD}");
    assert_eq!(git5::diff::diff_base_text("tree", b"x"), "");
}
