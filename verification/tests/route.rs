use toytcp::route::{parse_ipv4, parse_source_addr};

fn addr(s: &str) -> Option<u32> {
    let v: Vec<u8> = s.as_bytes().to_vec();
    parse_ipv4(&v)
}

fn source(s: &str) -> Option<u32> {
    let v: Vec<u8> = s.as_bytes().to_vec();
    parse_source_addr(&v)
}

#[test]
fn parses_dotted_quad() {
    assert_eq!(addr("10.0.0.1"), Some(0x0A000001));
    assert_eq!(addr("255.255.255.255"), Some(0xFFFFFFFF));
    assert_eq!(addr("0.0.0.0"), Some(0));
    assert_eq!(addr("192.168.1.200"), Some(0xC0A801C8));
}

#[test]
fn rejects_malformed_addresses() {
    assert_eq!(addr(""), None);
    assert_eq!(addr("10.0.0"), None);
    assert_eq!(addr("10.0.0.1.2"), None);
    assert_eq!(addr("10.0.0.256"), None);
    assert_eq!(addr("10.0.0.01"), None);
    assert_eq!(addr("10..0.1"), None);
    assert_eq!(addr("10.0.0.1x"), None);
    assert_eq!(addr("1000.0.0.1"), None);
}

#[test]
fn finds_source_after_src_token() {
    let line = "10.0.0.2 dev eth0 src 10.0.0.1 uid 0\n    cache\n";
    assert_eq!(source(line), Some(0x0A000001));
}

#[test]
fn source_lookup_edge_cases() {
    assert_eq!(source(""), None);
    assert_eq!(source("no source here"), None);
    assert_eq!(source("src"), None);
    assert_eq!(source("src not-an-address"), None);
    assert_eq!(source("prefix src 192.168.1.200"), Some(0xC0A801C8));
    // The scan stops at the first `src` token.
    assert_eq!(source("src 1.2.3.4 src 5.6.7.8"), Some(0x01020304));
}
