use std::io::Write;

use srs_parser::ip::IpAddress;
use srs_parser::parser::srs::{Error, Failure, LogicalMode, Rule, RuleItem, Srs};

fn uvarint(mut n: u64) -> Vec<u8> {
    let mut out = Vec::new();
    loop {
        let byte = (n & 0x7f) as u8;
        n >>= 7;
        if n == 0 {
            out.push(byte);
            return out;
        }
        out.push(byte | 0x80);
    }
}

fn zlib(data: &[u8]) -> Vec<u8> {
    let mut encoder = flate2::write::ZlibEncoder::new(Vec::new(), flate2::Compression::default());
    encoder.write_all(data).unwrap();
    encoder.finish().unwrap()
}

fn srs_file(version: u8, payload: &[u8]) -> Vec<u8> {
    let mut out = b"SRS".to_vec();
    out.push(version);
    out.extend_from_slice(&zlib(payload));
    out
}

fn ip_bytes(octets: &[u8]) -> Vec<u8> {
    let mut out = uvarint(octets.len() as u64);
    out.extend_from_slice(octets);
    out
}

/// A default rule holding the given items, not inverted.
fn default_rule(items: &[u8]) -> Vec<u8> {
    let mut out = vec![0u8];
    out.extend_from_slice(items);
    out.push(0xff);
    out.push(0);
    out
}

fn payload(rules: &[Vec<u8>]) -> Vec<u8> {
    let mut out = uvarint(rules.len() as u64);
    for r in rules {
        out.extend_from_slice(r);
    }
    out
}

fn only_items(srs: &Srs) -> &Vec<RuleItem> {
    match &srs.rules[0] {
        Rule::Default(d) => &d.items,
        Rule::Logical(_) => panic!("expected a default rule"),
    }
}

#[test]
fn empty_rule_set_parses() {
    let data = srs_file(1, &payload(&[]));
    let srs = Srs::parse(&data).unwrap();
    assert_eq!(srs.version, 1);
    assert!(srs.rules.is_empty());
}

#[test]
fn ports_and_query_types_are_big_endian() {
    let mut items = vec![9u8];
    items.extend(uvarint(2));
    items.extend([0x00, 0x50, 0x01, 0xbb]);
    items.push(0);
    items.extend(uvarint(1));
    items.extend([0x00, 0x1c]);
    let data = srs_file(3, &payload(&[default_rule(&items)]));
    let srs = Srs::parse(&data).unwrap();
    assert_eq!(srs.version, 3);
    let items = only_items(&srs);
    assert!(matches!(&items[0], RuleItem::Port(v) if v == &vec![80u16, 443]));
    assert!(matches!(&items[1], RuleItem::QueryType(v) if v == &vec![28u16]));
}

#[test]
fn string_items_hold_utf8_text() {
    let mut items = vec![1u8];
    items.extend(uvarint(2));
    items.extend(uvarint(3));
    items.extend(b"tcp");
    items.extend(uvarint(4));
    items.extend("пр".as_bytes());
    items.push(3);
    items.extend(uvarint(1));
    items.extend(uvarint(6));
    items.extend(b"google");
    let srs = Srs::parse_inflated(2, &payload(&[default_rule(&items)])).ok().unwrap();
    let items = only_items(&srs);
    assert!(matches!(&items[0], RuleItem::Network(v) if v == &vec!["tcp".to_string(), "пр".to_string()]));
    assert!(matches!(&items[1], RuleItem::DomainKeyword(v) if v == &vec!["google".to_string()]));
}

#[test]
fn logical_rule_holds_its_sub_rules() {
    let mut port = vec![9u8];
    port.extend(uvarint(1));
    port.extend([0x00, 0x35]);
    let mut rule = vec![1u8, 1];
    rule.extend(uvarint(2));
    rule.extend(default_rule(&port));
    rule.extend(default_rule(&[]));
    rule.push(1);
    let srs = Srs::parse_inflated(1, &payload(&[rule])).ok().unwrap();
    match &srs.rules[0] {
        Rule::Logical(l) => {
            assert_eq!(l.mode, LogicalMode::Or);
            assert!(l.invert);
            assert_eq!(l.rules.len(), 2);
        }
        Rule::Default(_) => panic!("expected a logical rule"),
    }
}

#[test]
fn ip_set_is_sorted_and_searched() {
    let mut items = vec![6u8, 1];
    items.extend(3u64.to_be_bytes());
    items.extend(ip_bytes(&[10, 0, 0, 0]));
    items.extend(ip_bytes(&[10, 0, 0, 255]));
    items.extend(ip_bytes(&[1, 1, 1, 0]));
    items.extend(ip_bytes(&[1, 1, 1, 255]));
    let mut v6_from = [0u8; 16];
    v6_from[0] = 0x20;
    v6_from[1] = 0x01;
    let mut v6_to = v6_from;
    v6_to[15] = 0xff;
    items.extend(ip_bytes(&v6_from));
    items.extend(ip_bytes(&v6_to));
    let srs = Srs::parse_inflated(1, &payload(&[default_rule(&items)])).ok().unwrap();
    let items = only_items(&srs);
    let set = match &items[0] {
        RuleItem::IpCidr(set) => set,
        _ => panic!("expected an IP set"),
    };
    assert_eq!(set.ranges[0].from, IpAddress::V4(0x01010100));
    assert_eq!(set.ranges[1].from, IpAddress::V4(0x0a000000));
    assert!(matches!(set.ranges[2].from, IpAddress::V6(_)));
    assert!(set.contains(IpAddress::V4(0x01010101)));
    assert!(set.contains(IpAddress::V4(0x0a0000ff)));
    assert!(!set.contains(IpAddress::V4(0x0a000100)));
    assert!(!set.contains(IpAddress::V4(0x01010000)));
    assert!(set.contains(IpAddress::V6(0x2001_0000_0000_0000_0000_0000_0000_0042)));
    assert!(!set.contains(IpAddress::V6(0x2002_0000_0000_0000_0000_0000_0000_0000)));
    assert!(!set.ranges[2].contains(IpAddress::V4(1)));
}

#[test]
fn network_types_need_version_three() {
    let mut items = vec![18u8];
    items.extend(uvarint(2));
    items.extend([1, 3]);
    let body = payload(&[default_rule(&items)]);
    let srs = Srs::parse_inflated(3, &body).ok().unwrap();
    assert!(matches!(&only_items(&srs)[0], RuleItem::NetworkType(v) if v == &vec![1u8, 3]));
    let err = Srs::parse_inflated(2, &body).err().unwrap();
    assert!(matches!(err, Failure::Error(Error::UnsupportedItemType { item_type: 18, srs_version: 2 })));
}

#[test]
fn adguard_domain_needs_version_two() {
    let body = payload(&[default_rule(&[16])]);
    assert!(matches!(&only_items(&Srs::parse_inflated(2, &body).ok().unwrap())[0], RuleItem::AdGuardDomain));
    assert!(matches!(
        Srs::parse_inflated(1, &body).err().unwrap(),
        Failure::Error(Error::UnsupportedItemType { item_type: 16, srs_version: 1 })
    ));
}

#[test]
fn interface_addresses_have_no_reader() {
    let body = payload(&[default_rule(&[21])]);
    assert!(matches!(Srs::parse_inflated(4, &body).err().unwrap(), Failure::Unfinished(21)));
    assert!(Srs::try_parse(&srs_file(4, &body)).is_none());
    assert!(matches!(
        Srs::parse_inflated(3, &body).err().unwrap(),
        Failure::Error(Error::UnsupportedItemType { item_type: 21, srs_version: 3 })
    ));
    assert!(matches!(
        Srs::try_parse(&srs_file(3, &body)),
        Some(Err(Error::UnsupportedItemType { item_type: 21, srs_version: 3 }))
    ));
}

#[test]
fn header_errors() {
    assert!(matches!(Srs::parse(b"SR"), Err(Error::UnexpectedEof)));
    assert!(matches!(Srs::parse(b"SRT\x01"), Err(Error::InvalidMagic([0x53, 0x52, 0x54]))));
    assert!(matches!(Srs::parse(b"SRS"), Err(Error::UnexpectedEof)));
    assert!(matches!(Srs::parse(&srs_file(0, &[0])), Err(Error::UnsupportedVersion(0))));
    assert!(matches!(Srs::parse(&srs_file(5, &[0])), Err(Error::UnsupportedVersion(5))));
    assert!(matches!(Srs::parse(b"SRS\x01not zlib"), Err(Error::Io(_))));
}

#[test]
fn body_errors() {
    let bad = |body: &[u8]| Srs::parse(&srs_file(2, body)).err().unwrap();
    assert!(matches!(bad(&[1, 7]), Error::InvalidRuleType(7)));
    assert!(matches!(bad(&payload(&[default_rule(&[200])])), Error::InvalidItemType(200)));
    assert!(matches!(bad(&[1, 0, 0xff, 2]), Error::Invalid("invalid boolean value")));
    assert!(matches!(bad(&[1, 1, 2]), Error::InvalidLogicalMode(2)));
    assert!(matches!(bad(&[0, 0]), Error::TrailingData));
    assert!(matches!(bad(&[1, 0]), Error::UnexpectedEof));
    assert!(matches!(bad(&[0xff; 11]), Error::InvalidVarint));
    let mut utf = vec![1u8];
    utf.extend(uvarint(1));
    utf.extend(uvarint(1));
    utf.push(0xff);
    assert!(matches!(bad(&payload(&[default_rule(&utf)])), Error::InvalidUtf8));
    let mut ipset = vec![6u8, 2];
    ipset.extend(0u64.to_be_bytes());
    assert!(matches!(bad(&payload(&[default_rule(&ipset)])), Error::InvalidIpSetVersion(2)));
    let mut iplen = vec![6u8, 1];
    iplen.extend(1u64.to_be_bytes());
    iplen.extend(ip_bytes(&[1, 2, 3]));
    assert!(matches!(bad(&payload(&[default_rule(&iplen)])), Error::InvalidIpLength(3)));
    assert!(matches!(bad(&payload(&[default_rule(&[2, 1])])), Error::UnsupportedSuccinctSetVersion(1)));
}

#[test]
fn error_messages() {
    assert_eq!(Error::InvalidMagic([0x53, 0x52, 0x0a]).message(), "invalid SRS magic: [53, 52, 0a]");
    assert_eq!(Error::UnsupportedVersion(7).message(), "unsupported SRS version: 7");
    assert_eq!(
        Error::UnsupportedItemType { item_type: 21, srs_version: 3 }.message(),
        "unsupported item type 21 for SRS version 3"
    );
    assert_eq!(Error::InvalidIpLength(123).message(), "invalid IP address length: 123");
    assert_eq!(Error::Invalid("invalid boolean value").message(), "invalid SRS: invalid boolean value");
    assert_eq!(Error::TrailingData.message(), "trailing data after SRS");
    let io = Error::Io(std::io::Error::new(std::io::ErrorKind::Other, "boom"));
    assert_eq!(io.message(), "I/O error: boom");
}

#[test]
fn long_strings_take_multi_byte_lengths() {
    let long = "x".repeat(300);
    let mut items = vec![11u8];
    items.extend(uvarint(1));
    items.extend(uvarint(300));
    items.extend(long.as_bytes());
    let srs = Srs::parse_inflated(1, &payload(&[default_rule(&items)])).ok().unwrap();
    assert!(matches!(&only_items(&srs)[0], RuleItem::ProcessName(v) if v == &vec![long.clone()]));
}
