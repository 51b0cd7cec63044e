use std::collections::BTreeMap;
use std::io::Write;

use srs_parser::parser::geosite::{Error, SrsGeoSite};
use srs_parser::parser::srs::{Rule, RuleItem, Srs};

fn uvarint(mut n: u64) -> Vec<u8> {
    let mut out = Vec::new();
    loop {
        let byte = (n & 0x7f) as u8;
        n >>= 7;
        if n == 0 {
            out.push(byte);
            return out;
        }
        out.push(byte | 0x80);
    }
}

fn zlib(data: &[u8]) -> Vec<u8> {
    let mut encoder = flate2::write::ZlibEncoder::new(Vec::new(), flate2::Compression::default());
    encoder.write_all(data).unwrap();
    encoder.finish().unwrap()
}

fn srs_file(version: u8, payload: &[u8]) -> Vec<u8> {
    let mut out = b"SRS".to_vec();
    out.push(version);
    out.extend_from_slice(&zlib(payload));
    out
}

fn pack(bits: &[bool]) -> Vec<u64> {
    let mut words = vec![0u64; (bits.len() + 63) / 64];
    for (i, &b) in bits.iter().enumerate() {
        if b {
            words[i / 64] |= 1 << (i % 64);
        }
    }
    words
}

/// The succinct trie of `keys`: leaves, label bitmap, labels.
fn build_trie(keys: &[Vec<u8>]) -> (Vec<u64>, Vec<u64>, Vec<u8>) {
    let mut children: Vec<BTreeMap<u8, usize>> = vec![BTreeMap::new()];
    let mut leaf: Vec<bool> = vec![false];
    for key in keys {
        let mut cur = 0;
        for &b in key {
            cur = match children[cur].get(&b) {
                Some(&n) => n,
                None => {
                    children.push(BTreeMap::new());
                    leaf.push(false);
                    let n = children.len() - 1;
                    children[cur].insert(b, n);
                    n
                }
            };
        }
        leaf[cur] = true;
    }
    let mut order = vec![0usize];
    let mut i = 0;
    while i < order.len() {
        let n = order[i];
        for (_, &c) in &children[n] {
            order.push(c);
        }
        i += 1;
    }
    let mut leaf_bits = vec![false; order.len()];
    let mut bitmap = Vec::new();
    let mut labels = Vec::new();
    for (id, &n) in order.iter().enumerate() {
        leaf_bits[id] = leaf[n];
        for (&label, _) in &children[n] {
            bitmap.push(false);
            labels.push(label);
        }
        bitmap.push(true);
    }
    (pack(&leaf_bits), pack(&bitmap), labels)
}

fn rev(domain: &str) -> Vec<u8> {
    domain.chars().rev().collect::<String>().into_bytes()
}

/// Keys for exact domains, `.suffix` prefix entries and root suffixes.
fn keys(exact: &[&str], dotted: &[&str], roots: &[&str]) -> Vec<Vec<u8>> {
    let mut out = Vec::new();
    for d in exact {
        out.push(rev(d));
    }
    for d in dotted {
        let mut k = rev(d);
        k.push(b'\r');
        out.push(k);
    }
    for d in roots {
        let mut k = rev(d);
        k.push(b'\n');
        out.push(k);
    }
    out
}

fn set_body(keys: &[Vec<u8>]) -> Vec<u8> {
    let (leaves, bitmap, labels) = build_trie(keys);
    let mut out = uvarint(leaves.len() as u64);
    for w in leaves {
        out.extend(w.to_be_bytes());
    }
    out.extend(uvarint(bitmap.len() as u64));
    for w in bitmap {
        out.extend(w.to_be_bytes());
    }
    out.extend(uvarint(labels.len() as u64));
    out.extend(labels);
    out
}

fn geosite_v2(keys: &[Vec<u8>]) -> Vec<u8> {
    let mut body = vec![1u8, 0, 2, 0];
    body.extend(set_body(keys));
    body.extend([0xff, 0]);
    srs_file(2, &body)
}

fn geosite_v1(keys: &[Vec<u8>]) -> Vec<u8> {
    let mut body = vec![1u8, 0, 2, 1];
    body.extend(set_body(keys));
    body.extend([0xff, 0]);
    srs_file(1, &body)
}

fn sample() -> Vec<Vec<u8>> {
    keys(&["example.com", "exact.org"], &[".ads.net", ".example.com"], &["google.com"])
}

#[test]
fn exact_domains_match_only_themselves() {
    let geo = SrsGeoSite::parse(&geosite_v2(&sample())).ok().unwrap();
    assert!(geo.contains("exact.org"));
    assert!(!geo.contains("www.exact.org"));
    assert!(!geo.contains("xact.org"));
    assert!(!geo.contains("org"));
}

#[test]
fn root_suffix_matches_domain_and_subdomains() {
    let geo = SrsGeoSite::parse(&geosite_v2(&sample())).ok().unwrap();
    assert!(geo.contains("google.com"));
    assert!(geo.contains("mail.google.com"));
    assert!(!geo.contains("notgoogle.com"));
}

#[test]
fn dotted_prefix_matches_subdomains_only() {
    let geo = SrsGeoSite::parse(&geosite_v2(&sample())).ok().unwrap();
    assert!(geo.contains("x.ads.net"));
    assert!(!geo.contains("ads.net"));
    assert!(geo.contains("www.example.com"));
    assert!(geo.contains("example.com"));
}

#[test]
fn version_one_layout_reads_the_same() {
    let geo = SrsGeoSite::parse(&geosite_v1(&sample())).ok().unwrap();
    assert!(geo.contains("mail.google.com"));
    assert!(!geo.contains("yandex.ru"));
    assert_eq!(geo.try_contains("exact.org"), Some(true));
}

#[test]
fn list_sorts_and_merges_suffixes() {
    let geo = SrsGeoSite::parse(&geosite_v2(&sample())).ok().unwrap();
    let (domains, suffixes) = geo.list();
    assert_eq!(domains, vec!["exact.org".to_string()]);
    assert_eq!(suffixes, vec![".ads.net".to_string(), "example.com".to_string(), "google.com".to_string()]);
    assert_eq!(geo.try_list(), Some((domains, suffixes)));
}

#[test]
fn unicode_domains_are_reversed_by_character() {
    let k = keys(&["пример.рф"], &[], &[]);
    let geo = SrsGeoSite::parse(&geosite_v2(&k)).ok().unwrap();
    assert!(geo.contains("пример.рф"));
    assert!(!geo.contains("пример.рус"));
    let (domains, suffixes) = geo.list();
    assert_eq!(domains, vec!["пример.рф".to_string()]);
    assert!(suffixes.is_empty());
}

#[test]
fn walk_out_of_range_is_reported() {
    let body = {
        let mut b = vec![1u8, 0, 2, 0];
        b.extend(uvarint(0));
        b.extend(uvarint(1));
        b.extend(0u64.to_be_bytes());
        b.extend(uvarint(0));
        b.extend([0xff, 0]);
        b
    };
    let geo = SrsGeoSite::parse(&srs_file(2, &body)).ok().unwrap();
    assert_eq!(geo.try_contains("a"), None);
    assert_eq!(geo.try_list(), None);
}

#[test]
fn geosite_errors() {
    assert!(matches!(SrsGeoSite::parse(b"SR"), Err(Error::Invalid("unexpected EOF"))));
    assert!(matches!(SrsGeoSite::parse(b"XRS\x02"), Err(Error::Invalid("invalid SRS magic"))));
    assert!(matches!(SrsGeoSite::parse(&srs_file(3, &[1])), Err(Error::UnsupportedSrsVersion(3))));
    assert!(matches!(SrsGeoSite::parse(&srs_file(2, &[2])), Err(Error::Invalid("expected exactly one rule"))));
    assert!(matches!(SrsGeoSite::parse(&srs_file(2, &[1, 1])), Err(Error::UnsupportedRuleType(1))));
    assert!(matches!(SrsGeoSite::parse(&srs_file(2, &[1, 0, 6])), Err(Error::UnsupportedRuleItem(6))));
    assert!(matches!(SrsGeoSite::parse(&srs_file(1, &[1, 0, 2, 0])), Err(Error::UnsupportedDomainVersion(0))));
    assert!(matches!(SrsGeoSite::parse(&srs_file(2, &[1, 0, 2, 1])), Err(Error::UnsupportedSuccinctSetVersion(1))));
    let mut body = vec![1u8, 0, 2, 0];
    body.extend(set_body(&sample()));
    let mut missing_final = body.clone();
    missing_final.extend([0, 0]);
    assert!(matches!(SrsGeoSite::parse(&srs_file(2, &missing_final)), Err(Error::Invalid("missing final rule item"))));
    let mut inverted = body.clone();
    inverted.extend([0xff, 1]);
    assert!(matches!(
        SrsGeoSite::parse(&srs_file(2, &inverted)),
        Err(Error::Invalid("inverted domain rules are not supported"))
    ));
    let mut trailing = body.clone();
    trailing.extend([0xff, 0, 0]);
    assert!(matches!(SrsGeoSite::parse(&srs_file(2, &trailing)), Err(Error::Invalid("trailing data after SRS rule"))));
    assert!(matches!(SrsGeoSite::try_parse(b"SRS\x02\x00\x01"), Some(Err(Error::Io(_)))));
    assert_eq!(Error::UnsupportedRuleItem(6).message(), "unsupported rule item: 6");
}

#[test]
fn srs_domain_item_matches_like_geosite() {
    let mut item = vec![2u8, 0];
    item.extend(set_body(&sample()));
    let mut rule = vec![0u8];
    rule.extend(item);
    rule.extend([0xff, 0]);
    let mut body = uvarint(1);
    body.extend(rule);
    let srs = Srs::parse(&srs_file(2, &body)).unwrap();
    let matcher = match &srs.rules[0] {
        Rule::Default(d) => match &d.items[0] {
            RuleItem::Domain(m) => m,
            _ => panic!("expected a domain item"),
        },
        Rule::Logical(_) => panic!("expected a default rule"),
    };
    assert!(matcher.matches("exact.org"));
    assert!(matcher.matches("mail.google.com"));
    assert!(matcher.matches("google.com"));
    assert!(matcher.matches("x.ads.net"));
    assert!(!matcher.matches("ads.net"));
    assert!(!matcher.matches("www.exact.org"));
    assert!(matcher.has(b"gro.tcaxe"));
}

#[test]
fn every_listed_domain_is_contained() {
    let geo = SrsGeoSite::parse(&geosite_v2(&sample())).ok().unwrap();
    let (domains, suffixes) = geo.list();
    for d in &domains {
        assert!(geo.contains(d));
    }
    for s in &suffixes {
        if s.starts_with('.') {
            assert!(geo.contains(&format!("www{s}")));
        } else {
            assert!(geo.contains(s));
            assert!(geo.contains(&format!("www.{s}")));
        }
    }
}

#[test]
fn every_contained_domain_is_covered_by_the_lists() {
    let geo = SrsGeoSite::parse(&geosite_v2(&sample())).ok().unwrap();
    let (domains, suffixes) = geo.list();
    let candidates = [
        "example.com", "www.example.com", "exact.org", "www.exact.org", "ads.net", "x.ads.net",
        "google.com", "mail.google.com", "notgoogle.com", "yandex.ru",
    ];
    for d in candidates {
        let covered = domains.iter().any(|x| x == d)
            || suffixes.iter().any(|s| {
                if s.starts_with('.') {
                    d.ends_with(s.as_str())
                } else {
                    d == s || d.ends_with(&format!(".{s}"))
                }
            });
        assert_eq!(geo.contains(d), covered, "{d}");
    }
}

#[test]
fn listing_twice_gives_the_same_lists() {
    let geo = SrsGeoSite::parse(&geosite_v2(&sample())).ok().unwrap();
    assert_eq!(geo.list(), geo.list());
}

#[test]
fn large_trie_spans_many_bitmap_words() {
    let exact: Vec<String> = (0..300).map(|i| format!("host{i}.example{}.net", i % 7)).collect();
    let roots: Vec<String> = (0..50).map(|i| format!("zone{i}.org")).collect();
    let exact_refs: Vec<&str> = exact.iter().map(|s| s.as_str()).collect();
    let root_refs: Vec<&str> = roots.iter().map(|s| s.as_str()).collect();
    let k = keys(&exact_refs, &[], &root_refs);
    let geo = SrsGeoSite::parse(&geosite_v2(&k)).ok().unwrap();
    for d in &exact {
        assert!(geo.contains(d));
        assert!(!geo.contains(&format!("a.{d}")));
    }
    for r in &roots {
        assert!(geo.contains(r));
        assert!(geo.contains(&format!("deep.sub.{r}")));
    }
    assert!(!geo.contains("host300.example0.net"));
    let (domains, suffixes) = geo.list();
    let mut expected = exact.clone();
    expected.sort();
    assert_eq!(domains, expected);
    let mut expected_roots = roots.clone();
    expected_roots.sort();
    assert_eq!(suffixes, expected_roots);
}

#[test]
fn srs_domain_matcher_with_many_keys() {
    let exact: Vec<String> = (0..200).map(|i| format!("svc{i}.test")).collect();
    let refs: Vec<&str> = exact.iter().map(|s| s.as_str()).collect();
    let mut item = vec![2u8, 0];
    item.extend(set_body(&keys(&refs, &[], &["wide.example"])));
    let mut body = uvarint(1);
    body.push(0);
    body.extend(item);
    body.extend([0xff, 0]);
    let srs = Srs::parse(&srs_file(4, &body)).unwrap();
    let matcher = match &srs.rules[0] {
        Rule::Default(d) => match &d.items[0] {
            RuleItem::Domain(m) => m,
            _ => panic!("expected a domain item"),
        },
        Rule::Logical(_) => panic!("expected a default rule"),
    };
    for d in &exact {
        assert!(matcher.matches(d));
    }
    assert!(matcher.matches("a.wide.example"));
    assert!(!matcher.matches("svc200.test"));
}
