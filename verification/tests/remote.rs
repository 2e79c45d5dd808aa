use git5::error::Git5Error;
use git5::remote::{get_remote_url, parse_ref_advertisement, refs_endpoint, remote_section};

const ID_A: &str = "95d09f2b10159347eece71399a7e2e907ea3df4f";
const ID_B: &str = "e69de29bb2d1d6434b8b29ae775ad8c2e48c5391";

fn pkt(s: &str) -> String {
    format!("{:04x}{}", s.len() + 4, s)
}

fn invalid_ref_message(r: Result<String, Git5Error>) -> String {
    match r {
        Err(Git5Error::InvalidRef(m)) => m,
        _ => panic!("expected an invalid ref"),
    }
}

#[test]
fn remote_section_text() {
    assert_eq!(remote_section("origin", "http://x/r"), "[remote \"origin\"]\nurl = http://x/r\n");
}

#[test]
fn remote_url_without_config() {
    assert_eq!(get_remote_url(None, "https://host/r").unwrap(), "https://host/r");
    assert_eq!(invalid_ref_message(get_remote_url(None, "origin")), "No remotes configured");
}

#[test]
fn remote_url_from_config() {
    let config = "[remote \"origin\"]\n  url =  http://a  \n[core]\nurl = nope\n[remote \"up\"]\nname = x\n";
    assert_eq!(get_remote_url(Some(config), "origin").unwrap(), "http://a");
    assert_eq!(invalid_ref_message(get_remote_url(Some(config), "up")), "Remote 'up' not found");
    assert_eq!(invalid_ref_message(get_remote_url(Some(config), "core")), "Remote 'core' not found");
    assert_eq!(get_remote_url(Some(config), "http://direct").unwrap(), "http://direct");
    assert_eq!(get_remote_url(Some(&remote_section("o", "http://z")), "o").unwrap(), "http://z");
}

#[test]
fn refs_endpoint_drops_trailing_slashes() {
    assert_eq!(refs_endpoint("http://h/repo.git//"), "http://h/repo.git/info/refs?service=git-upload-pack");
    assert_eq!(refs_endpoint("http://h"), "http://h/info/refs?service=git-upload-pack");
}

#[test]
fn ref_advertisement_lists_refs() {
    let body = format!(
        "{}0000{}{}0000",
        pkt("# service=git-upload-pack\n"),
        pkt(&format!("{} HEAD\0multi_ack side-band\n", ID_A)),
        pkt(&format!("{} refs/heads/main\n", ID_B)),
    );
    let refs = parse_ref_advertisement(body.as_bytes()).unwrap();
    assert_eq!(
        refs,
        vec![(ID_A.to_string(), "HEAD".to_string()), (ID_B.to_string(), "refs/heads/main".to_string())]
    );
}

#[test]
fn ref_advertisement_edge_cases() {
    assert_eq!(parse_ref_advertisement(b"").unwrap(), Vec::new());
    assert_eq!(parse_ref_advertisement(b"00ff").unwrap(), Vec::new());
    assert_eq!(parse_ref_advertisement(b"zzzz0000").unwrap(), Vec::new());
    assert!(parse_ref_advertisement(b"0002abcd").is_none());
    let short = pkt("abc def\n");
    assert_eq!(parse_ref_advertisement(short.as_bytes()).unwrap(), Vec::new());
}
