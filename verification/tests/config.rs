use git5::config::{config_to_string, parse_config};
use git5::strmap::StrMap;

fn sample() -> StrMap {
    let mut m = StrMap::new();
    parse_config(
        "top = 1\n[user]\n  name =  Test User  \nemail=a@b\nbroken line\n# comment = no\n\n[core]\nbare = false\n",
        &mut m,
    );
    m
}

#[test]
fn parse_config_reads_sections_and_keys() {
    let m = sample();
    assert_eq!(m.len(), 4);
    assert_eq!(m.get_str("top").unwrap(), "1");
    assert_eq!(m.get_str("user.name").unwrap(), "Test User");
    assert_eq!(m.get_str("user.email").unwrap(), "a@b");
    assert_eq!(m.get_str("core.bare").unwrap(), "false");
}

#[test]
fn parse_config_overrides_existing_entries() {
    let mut m = StrMap::new();
    m.insert_str("user.name", "Old");
    m.insert_str("keep", "yes");
    parse_config("[user]\nname = New\n", &mut m);
    assert_eq!(m.get_str("user.name").unwrap(), "New");
    assert_eq!(m.get_str("keep").unwrap(), "yes");
}

#[test]
fn parse_config_splits_at_first_equals() {
    let mut m = StrMap::new();
    parse_config("[a]\nk = x = y\n", &mut m);
    assert_eq!(m.get_str("a.k").unwrap(), "x = y");
}

#[test]
fn config_text_groups_by_section() {
    assert_eq!(
        config_to_string(&sample()),
        "top = 1\n[core]\nbare = false\n[user]\nemail = a@b\nname = Test User\n"
    );
    assert_eq!(config_to_string(&StrMap::new()), "");
}

#[test]
fn config_set_then_get() {
    let mut m = StrMap::new();
    m.insert_str("user.name", "Test User");
    m.insert_str("user.email", "test@example.com");
    let mut back = StrMap::new();
    parse_config(&config_to_string(&m), &mut back);
    assert_eq!(back.get_str("user.name").unwrap(), "Test User");
    assert_eq!(back.entries(), m.entries());
}

#[test]
fn config_keys_for_the_same_setting_keep_the_last() {
    let mut m = StrMap::new();
    m.insert_str("foo", "1");
    m.insert_str(".foo", "2");
    assert_eq!(config_to_string(&m), "foo = 1\n");
}

#[test]
fn config_subkey_keeps_later_dots() {
    let mut m = StrMap::new();
    m.insert_str("a.b.c", "v");
    assert_eq!(config_to_string(&m), "[a]\nb.c = v\n");
}
