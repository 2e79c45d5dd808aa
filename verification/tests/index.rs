use git5::index::{index_to_string, parse_index};
use git5::strmap::StrMap;

#[test]
fn parse_index_maps_paths_to_hashes() {
    let m = parse_index("h1 a.txt\nh2 dir/b c.txt\nnospace\nh3 a.txt\n");
    assert_eq!(m.len(), 2);
    assert_eq!(m.get_str("a.txt").unwrap(), "h3");
    assert_eq!(m.get_str("dir/b c.txt").unwrap(), "h2");
    assert!(!m.contains_str("nospace"));
}

#[test]
fn parse_index_of_empty_text_is_empty() {
    assert_eq!(parse_index("").len(), 0);
}

#[test]
fn index_text_lists_paths_in_order() {
    let mut m = StrMap::new();
    m.insert_str("z.txt", "h2");
    m.insert_str("a.txt", "h1");
    assert_eq!(index_to_string(&m), "h1 a.txt\nh2 z.txt\n");
    assert_eq!(index_to_string(&StrMap::new()), "");
}

#[test]
fn index_reads_back_what_was_written() {
    let mut m = StrMap::new();
    m.insert_str("src/main.rs", "95d09f2b10159347eece71399a7e2e907ea3df4f");
    m.insert_str("README.md", "e69de29bb2d1d6434b8b29ae775ad8c2e48c5391");
    let back = parse_index(&index_to_string(&m));
    assert_eq!(back.entries(), m.entries());
}
