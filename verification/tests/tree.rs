use git5::error::Git5Error;
use git5::object::object_hash;
use git5::strmap::StrMap;
use git5::tree::{
    build_tree, cat_file, file_mode, read_tree_entries, is_skipped_in_tree, is_skipped_in_workspace, is_tree_mode,
    ls_tree_line, mktree_content, parse_tree, restored_permissions, sort_items, tree_files, TreeItem,
};

const A_ID: &str = "2e65efe2a145dda7ee51d1741299f848e5bf752e";
const Z_ID: &str = "fa7af8bf5fdd704f73beb3adc5612682a98e1af5";

fn item(mode: &str, name: &str, id: &str) -> TreeItem {
    TreeItem { mode: mode.to_string(), name: name.to_string(), id: id.to_string() }
}

fn hex(s: &str) -> Vec<u8> {
    (0..s.len()).step_by(2).map(|i| u8::from_str_radix(&s[i..i + 2], 16).unwrap()).collect()
}

fn two_file_tree() -> Vec<u8> {
    let mut t = b"100644 a_file.txt\0".to_vec();
    t.extend(hex(A_ID));
    t.extend(b"100644 z_file.txt\0");
    t.extend(hex(Z_ID));
    t
}

#[test]
fn build_tree_sorts_entries_by_name() {
    let content = build_tree(vec![item("100644", "z_file.txt", Z_ID), item("100644", "a_file.txt", A_ID)]).unwrap();
    assert_eq!(content, two_file_tree());
    assert_eq!(object_hash("tree", &content), "60ff4dfa6d3dd4b35a787b3ad6290c8ffce77d31");
}

#[test]
fn build_tree_of_nothing_is_empty() {
    assert_eq!(build_tree(Vec::new()).unwrap(), Vec::<u8>::new());
}

#[test]
fn build_tree_rejects_invalid_hex() {
    match build_tree(vec![item("100644", "a", "zz")]) {
        Err(Git5Error::ParseError(m)) => assert_eq!(m, "Invalid hex: Invalid character 'z' at position 0"),
        _ => panic!("expected a parse error"),
    }
    match build_tree(vec![item("100644", "b", "abc"), item("100644", "a", A_ID)]) {
        Err(Git5Error::ParseError(m)) => assert_eq!(m, "Invalid hex: Odd number of digits"),
        _ => panic!("expected a parse error"),
    }
    match build_tree(vec![item("100644", "b", "0g"), item("100644", "a", "x1")]) {
        Err(Git5Error::ParseError(m)) => assert_eq!(m, "Invalid hex: Invalid character 'x' at position 0"),
        _ => panic!("expected a parse error"),
    }
}

#[test]
fn sort_items_is_stable() {
    let sorted = sort_items(vec![item("1", "b", "01"), item("2", "a", "02"), item("3", "b", "03")]);
    let names: Vec<(&str, &str)> = sorted.iter().map(|i| (i.name.as_str(), i.mode.as_str())).collect();
    assert_eq!(names, vec![("a", "2"), ("b", "1"), ("b", "3")]);
}

#[test]
fn parse_tree_reads_entries_back() {
    let entries = parse_tree(&two_file_tree()).unwrap();
    assert_eq!(entries.len(), 2);
    assert_eq!(entries[0].mode, "100644");
    assert_eq!(entries[0].name, "a_file.txt");
    assert_eq!(entries[0].id, A_ID);
    assert_eq!(entries[1].name, "z_file.txt");
    assert_eq!(entries[1].id, Z_ID);
}

#[test]
fn parse_tree_of_cut_short_content_is_none() {
    let mut t = two_file_tree();
    t.truncate(t.len() - 1);
    assert!(parse_tree(&t).is_none());
    assert!(parse_tree(b"100644 name").is_none());
    assert_eq!(parse_tree(b"").unwrap().len(), 0);
}

#[test]
fn cat_file_shows_each_kind() {
    assert_eq!(cat_file("blob", b"hi\n").unwrap(), "hi\n");
    assert_eq!(cat_file("commit", b"tree x\n").unwrap(), "tree x\n");
    assert_eq!(cat_file("tag", b"whatever").unwrap(), "<tag object>");
    assert_eq!(cat_file("blob", b"\xffa").unwrap(), "\u{FFFD}a");
    assert_eq!(
        cat_file("tree", &two_file_tree()).unwrap(),
        format!("100644 {} a_file.txt\n100644 {} z_file.txt\n", A_ID, Z_ID)
    );
    assert!(cat_file("tree", b"100644 x").is_none());
}

#[test]
fn tree_files_maps_names_to_ids() {
    let files = tree_files(&parse_tree(&two_file_tree()).unwrap());
    assert_eq!(files.get_str("a_file.txt").unwrap(), A_ID);
    assert_eq!(files.get_str("z_file.txt").unwrap(), Z_ID);
    assert_eq!(files.len(), 2);
}

#[test]
fn modes_and_permissions() {
    assert_eq!(file_mode(0o755), "100755");
    assert_eq!(file_mode(0o100), "100755");
    assert_eq!(file_mode(0o644), "100644");
    assert_eq!(restored_permissions("100755"), 0o755);
    assert_eq!(restored_permissions("100644"), 0o644);
    assert_eq!(restored_permissions("40000"), 0o644);
    assert!(is_tree_mode("40000"));
    assert!(!is_tree_mode("040000"));
}

#[test]
fn skipped_names() {
    assert!(is_skipped_in_tree(".git4"));
    assert!(is_skipped_in_tree("target"));
    assert!(is_skipped_in_tree(".hidden"));
    assert!(!is_skipped_in_tree("src"));
    assert!(!is_skipped_in_tree("git.sh"));
    assert!(is_skipped_in_workspace("git.sh"));
    assert!(is_skipped_in_workspace(".git4"));
    assert!(!is_skipped_in_workspace("main.rs"));
}

#[test]
fn mktree_content_makes_regular_files() {
    let mut index = StrMap::new();
    index.insert_str("z_file.txt", Z_ID);
    index.insert_str("a_file.txt", A_ID);
    assert_eq!(mktree_content(&index).unwrap(), two_file_tree());
    index.insert_str("bad", "xyz");
    assert!(matches!(mktree_content(&index), Err(Git5Error::ParseError(_))));
}

#[test]
fn ls_tree_line_format() {
    let entries = parse_tree(&two_file_tree()).unwrap();
    assert_eq!(ls_tree_line(&entries[0]), format!("100644 {} a_file.txt\ta_file.txt", A_ID));
}

#[test]
fn read_tree_entries_stops_where_cut_short() {
    let mut t = two_file_tree();
    t.truncate(t.len() - 1);
    let (entries, complete) = read_tree_entries(&t);
    assert!(!complete);
    assert_eq!(entries.len(), 1);
    assert_eq!(entries[0].name, "a_file.txt");
    let (all, complete) = read_tree_entries(&two_file_tree());
    assert!(complete);
    assert_eq!(all.len(), 2);
}

#[test]
fn expect_tree_cases() {
    assert!(git5::tree::expect_tree("tree").is_ok());
    match git5::tree::expect_tree("blob") {
        Err(Git5Error::InvalidObject(m)) => assert_eq!(m, "Expected tree object, got blob"),
        _ => panic!("expected an invalid object"),
    }
}
