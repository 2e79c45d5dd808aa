use git5::commit::{
    branch_head_text, checkout_name_of_head, checkout_tree_id, commit_parent, commit_text_at,
    commit_tree, commit_tree_hash, current_branch, find_header_line, first_parent_trimmed,
    get_commit_parent, is_ancestor, commit_object_at, log_entry, merge_action, parse_head, ref_file_hash, ref_file_text,
    resolve_revision, symbolic_ref_text, AncestorStep, HeadRef, MergeAction,
};
use git5::error::Git5Error;
use git5::object::{decode_object, object_hash, prepare_object};

const ID40: &str = "95d09f2b10159347eece71399a7e2e907ea3df4f";

#[test]
fn parse_head_symbolic_and_detached() {
    assert!(matches!(parse_head("ref: refs/heads/main\n"), HeadRef::Symbolic(p) if p == "refs/heads/main"));
    assert!(matches!(parse_head("ref:   refs/x  "), HeadRef::Symbolic(p) if p == "refs/x"));
    assert!(matches!(parse_head("  abc123 \n"), HeadRef::Detached(h) if h == "abc123"));
}

#[test]
fn current_branch_of_head_text() {
    assert_eq!(current_branch("ref: refs/heads/dev\n"), "dev");
    assert_eq!(current_branch(" ref: refs/heads/dev\n"), "");
    assert_eq!(current_branch("abc\n"), "");
    assert_eq!(checkout_name_of_head("ref: refs/heads/main\n"), "main");
    assert_eq!(checkout_name_of_head("abc\n"), "abc");
}

#[test]
fn ref_and_head_texts() {
    assert_eq!(ref_file_text("abc"), "abc\n");
    assert_eq!(branch_head_text("feature"), "ref: refs/heads/feature\n");
    assert_eq!(ref_file_hash(" abc \n"), "abc");
    assert_eq!(ref_file_hash(&ref_file_text(ID40)), ID40);
    assert_eq!(current_branch(&branch_head_text("feature")), "feature");
    assert_eq!(symbolic_ref_text("ref: refs/heads/main\n"), "refs/heads/main");
    assert_eq!(symbolic_ref_text("abc\n"), "abc");
}

#[test]
fn commit_text_exact() {
    assert_eq!(
        commit_text_at("t1", Some("p1"), "msg", 1700000000),
        "tree t1\nparent p1\nauthor git4 User <git4@example.com> 1700000000 +0000\ncommitter git4 User <git4@example.com> 1700000000 +0000\n\nmsg\n"
    );
    assert_eq!(
        commit_text_at("t1", None, "", -5),
        "tree t1\nauthor git4 User <git4@example.com> -5 +0000\ncommitter git4 User <git4@example.com> -5 +0000\n\n\n"
    );
}

#[test]
fn commit_tree_makes_a_commit_object() {
    let p = commit_tree("t1", Some("p1"), "hello").unwrap();
    let (t, content) = decode_object(&p.compressed).unwrap();
    assert_eq!(t, "commit");
    assert_eq!(p.id, object_hash("commit", &content));
    let text = String::from_utf8(content).unwrap();
    assert!(text.starts_with("tree t1\nparent p1\nauthor git4 User <git4@example.com> "));
    assert!(text.ends_with(" +0000\n\nhello\n"));
}

#[test]
fn commit_parent_and_tree() {
    assert_eq!(commit_parent(b"tree t\nparent p1\nparent p2\n").unwrap(), "p1");
    assert!(commit_parent(b"tree t\n\nparent x").is_none());
    assert!(commit_parent(b"tree t\n\nno parents").is_none());
    assert_eq!(commit_tree_hash(b"tree t\nparent p1\n").unwrap(), "t");
    assert!(commit_tree_hash(b"parent p1\n").is_none());
    assert_eq!(first_parent_trimmed(b"parent  abc \n").unwrap(), "abc");
    assert_eq!(find_header_line("a\nkey value\nkey other", "key ").unwrap(), "value");
    assert!(find_header_line("a\n\nkey value", "key ").is_none());
}

#[test]
fn get_commit_parent_from_object_files() {
    let c = prepare_object("commit", b"tree t\nparent abc\n\nm\n").unwrap();
    assert_eq!(get_commit_parent(&c.compressed).unwrap(), Some("abc".to_string()));
    let root = prepare_object("commit", b"tree t\n\nm\n").unwrap();
    assert_eq!(get_commit_parent(&root.compressed).unwrap(), None);
    let blob = prepare_object("blob", b"parent abc\n").unwrap();
    assert_eq!(get_commit_parent(&blob.compressed).unwrap(), None);
    assert!(matches!(get_commit_parent(b"junk"), Err(Git5Error::IoError(_))));
}

#[test]
fn is_ancestor_steps() {
    assert!(matches!(is_ancestor("a", None), AncestorStep::Done(false)));
    assert!(matches!(is_ancestor("a", Some("a")), AncestorStep::Done(true)));
    assert!(matches!(is_ancestor("a", Some("b")), AncestorStep::ReadParentOf(h) if h == "b"));
}

#[test]
fn log_entry_of_a_commit() {
    let e = log_entry("h1", b"tree t\nparent p\nauthor A 1 +0000\ncommitter C 1 +0000\n\nline1\nline2\n");
    assert_eq!(
        e.text,
        "commit h1\nauthor A 1 +0000\ncommitter C 1 +0000\n\n    line1\n    line2\n\n\n"
    );
    assert_eq!(e.parent, Some("p".to_string()));
    let root = log_entry("h0", b"tree t\n\nfirst\n");
    assert_eq!(root.text, "commit h0\n\n    first\n\n\n");
    assert_eq!(root.parent, None);
}

#[test]
fn resolve_revision_cases() {
    assert_eq!(resolve_revision("main", Some(" abc \n"), None, false).unwrap(), "abc");
    assert_eq!(resolve_revision(ID40, None, None, true).unwrap(), ID40);
    assert_eq!(resolve_revision("HEAD", None, Some(ID40), false).unwrap(), ID40);
    match resolve_revision("HEAD", None, None, false) {
        Err(Git5Error::InvalidRef(m)) => assert_eq!(m, "Cannot resolve revision: HEAD"),
        _ => panic!("expected an invalid ref"),
    }
    match resolve_revision("short", None, Some(ID40), true) {
        Err(Git5Error::InvalidRef(m)) => assert_eq!(m, "Cannot resolve revision: short"),
        _ => panic!("expected an invalid ref"),
    }
    assert!(resolve_revision(ID40, None, None, false).is_err());
}

#[test]
fn checkout_tree_id_cases() {
    assert_eq!(checkout_tree_id("h", "commit", b"tree t\n").unwrap(), "t");
    assert_eq!(checkout_tree_id("h", "commit", b"").unwrap(), "");
    assert_eq!(checkout_tree_id("h", "tree", b"").unwrap(), "h");
    match checkout_tree_id("h", "blob", b"") {
        Err(Git5Error::InvalidObject(m)) => assert_eq!(m, "Cannot checkout an object of type blob"),
        _ => panic!("expected an invalid object"),
    }
}

#[test]
fn merge_actions() {
    assert!(matches!(merge_action("a", "a", false), MergeAction::UpToDate));
    assert!(matches!(merge_action("a", "a", true), MergeAction::UpToDate));
    assert!(matches!(merge_action("a", "b", true), MergeAction::FastForward));
    assert!(matches!(merge_action("a", "b", false), MergeAction::Unsupported));
}

#[test]
fn commit_reads_back_its_tree_and_parent() {
    let text = commit_text_at(ID40, Some("p1"), "parent in the message\nmore", 42);
    assert_eq!(commit_tree_hash(text.as_bytes()).unwrap(), ID40);
    assert_eq!(commit_parent(text.as_bytes()).unwrap(), "p1");
    assert_eq!(log_entry("c", text.as_bytes()).parent, Some("p1".to_string()));
    let root = commit_text_at(ID40, None, "parent abc", 42);
    assert_eq!(log_entry("c", root.as_bytes()).parent, None);
    assert!(commit_parent(root.as_bytes()).is_none());
    let stored_root = commit_tree(ID40, None, "parent abc").unwrap();
    assert_eq!(get_commit_parent(&stored_root.compressed).unwrap(), None);
    let stored = commit_tree(ID40, Some("p2"), "msg").unwrap();
    assert_eq!(get_commit_parent(&stored.compressed).unwrap(), Some("p2".to_string()));
}

#[test]
fn commit_object_at_names_its_text() {
    let text = commit_text_at("t1", None, "m", 7);
    let p = commit_object_at("t1", None, "m", 7);
    assert_eq!(p.id, object_hash("commit", text.as_bytes()));
    let (t, c) = decode_object(&p.compressed).unwrap();
    assert_eq!((t.as_str(), c), ("commit", text.into_bytes()));
}

#[test]
fn merge_target_tree_cases() {
    assert_eq!(git5::commit::merge_target_tree("commit", b"tree t\n").unwrap(), "t");
    assert_eq!(git5::commit::merge_target_tree("commit", b"").unwrap(), "");
    match git5::commit::merge_target_tree("blob", b"") {
        Err(Git5Error::InvalidObject(m)) => assert_eq!(m, "Merge target is not a commit"),
        _ => panic!("expected an invalid object"),
    }
}

fn walk(parents: &[(&str, &str)], ancestor: &str, start: &str) -> bool {
    let mut current = Some(start.to_string());
    loop {
        match is_ancestor(ancestor, current.as_deref()) {
            AncestorStep::Done(found) => return found,
            AncestorStep::ReadParentOf(h) => {
                current = parents.iter().find(|(c, _)| *c == h).map(|(_, p)| p.to_string());
            }
        }
    }
}

#[test]
fn ancestor_walk_follows_first_parents() {
    let parents = [("c", "b"), ("b", "a")];
    assert!(walk(&parents, "a", "c"));
    assert!(walk(&parents, "b", "c"));
    assert!(walk(&parents, "c", "c"));
    assert!(!walk(&parents, "c", "a"));
    assert!(!walk(&parents, "x", "c"));
}

#[test]
fn named_ref_prefers_heads() {
    let heads = vec![("dev".to_string(), "x\n".to_string()), ("main".to_string(), format!("{}\n", ID40))];
    let tags = vec![("v1".to_string(), ID40.to_string())];
    assert_eq!(git5::commit::named_ref(ID40, &heads, &tags), Some("refs/heads/main".to_string()));
    assert_eq!(git5::commit::named_ref(ID40, &Vec::new(), &tags), Some("refs/tags/v1".to_string()));
    assert_eq!(git5::commit::named_ref("y", &heads, &tags), None);
}

#[test]
fn commit_at_seconds_cases() {
    let p = git5::commit::commit_at_seconds("t1", None, "m", Some(7)).unwrap();
    assert_eq!(p.id, git5::commit::commit_object_at("t1", None, "m", 7).id);
    assert!(git5::commit::commit_at_seconds("t1", None, "m", None).is_err());
    match git5::commit::commit_at_seconds("t1", None, "m", Some(u64::MAX)) {
        Err(Git5Error::IoError(m)) => assert_eq!(m, "System time is out of range"),
        _ => panic!("expected an I/O error"),
    }
}
