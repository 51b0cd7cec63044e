use std::io::Write;

use srs_parser::ip::IpAddress;
use srs_parser::parser::geoip::{Error, SrsGeoIp};

fn zlib(data: &[u8]) -> Vec<u8> {
    let mut encoder = flate2::write::ZlibEncoder::new(Vec::new(), flate2::Compression::default());
    encoder.write_all(data).unwrap();
    encoder.finish().unwrap()
}

fn srs_file(version: u8, payload: &[u8]) -> Vec<u8> {
    let mut out = b"SRS".to_vec();
    out.push(version);
    out.extend_from_slice(&zlib(payload));
    out
}

fn addr(octets: &[u8]) -> Vec<u8> {
    let mut out = vec![octets.len() as u8];
    out.extend_from_slice(octets);
    out
}

fn ipset(ranges: &[(&[u8], &[u8])]) -> Vec<u8> {
    let mut out = vec![6u8, 1];
    out.extend((ranges.len() as u64).to_be_bytes());
    for (from, to) in ranges {
        out.extend(addr(from));
        out.extend(addr(to));
    }
    out
}

fn geoip(items: &[u8]) -> Vec<u8> {
    let mut body = vec![1u8, 0];
    body.extend_from_slice(items);
    body.extend([0xff, 0]);
    srs_file(2, &body)
}

#[test]
fn ranges_are_split_by_family_and_searched() {
    let v6_from = [0x2a, 0x02, 0x06, 0xb8, 0, 0, 0, 0, 0, 0, 0, 0, 0, 0, 0, 0];
    let mut v6_to = v6_from;
    v6_to[15] = 0xff;
    let mut items = ipset(&[(&[5, 3, 0, 0], &[5, 3, 255, 255]), (&v6_from, &v6_to)]);
    items.extend(ipset(&[(&[77, 88, 0, 0], &[77, 88, 63, 255])]));
    let geo = SrsGeoIp::parse(&geoip(&items)).unwrap();
    assert_eq!(geo.ipv4_ranges(), 2);
    assert_eq!(geo.ipv6_ranges(), 1);
    assert!(geo.contains(IpAddress::V4(u32::from_be_bytes([77, 88, 44, 55]))));
    assert!(geo.contains(IpAddress::V4(u32::from_be_bytes([5, 3, 0, 0]))));
    assert!(!geo.contains(IpAddress::V4(u32::from_be_bytes([1, 1, 1, 1]))));
    assert!(geo.contains(IpAddress::V6(u128::from_be_bytes(v6_to))));
    assert!(!geo.contains(IpAddress::V6(1)));
}

#[test]
fn geoip_errors() {
    assert!(matches!(SrsGeoIp::parse(b"SRX\x02"), Err(Error::Invalid("invalid SRS magic"))));
    assert!(matches!(SrsGeoIp::parse(b"SRS\x00"), Err(Error::Invalid("invalid SRS version"))));
    assert!(matches!(SrsGeoIp::parse(&srs_file(2, &[2])), Err(Error::Invalid("expected exactly one rule in GeoIP SRS"))));
    assert!(matches!(SrsGeoIp::parse(&srs_file(2, &[1, 1])), Err(Error::UnsupportedRuleType(1))));
    assert!(matches!(SrsGeoIp::parse(&geoip(&[2])), Err(Error::UnsupportedRuleItem(2))));
    assert!(matches!(SrsGeoIp::parse(&srs_file(2, &[1, 0, 0xff, 1])), Err(Error::Invalid("inverted GeoIP rule is not supported"))));
    assert!(matches!(SrsGeoIp::parse(&geoip(&ipset(&[(&[1, 2, 3, 4], &[1; 16])]))), Err(Error::Invalid(_))));
    assert!(matches!(SrsGeoIp::parse(b"SRS\x02garbage"), Err(Error::Io(_))));
    assert_eq!(Error::UnsupportedVersion(9).message(), "unsupported SRS version: 9");
}

#[test]
fn byte_string_past_the_address_space_is_reported() {
    let mut items = vec![6u8, 1];
    items.extend(1u64.to_be_bytes());
    items.extend([0xfe, 0xff, 0xff, 0xff, 0xff, 0xff, 0xff, 0xff, 0xff, 0x01]);
    let data = geoip(&items);
    assert!(SrsGeoIp::try_parse(&data).is_none());
    assert!(matches!(SrsGeoIp::try_parse(&geoip(&[7])), Some(Err(Error::UnsupportedRuleItem(7)))));
}

#[test]
fn range_counts_add_up_over_the_items() {
    let v6 = [0x20, 0x01, 0x0d, 0xb8, 0, 0, 0, 0, 0, 0, 0, 0, 0, 0, 0, 1];
    let mut items = ipset(&[(&[10, 0, 0, 0], &[10, 0, 0, 255])]);
    items.extend(ipset(&[(&v6, &v6), (&[192, 168, 0, 0], &[192, 168, 0, 9]), (&v6, &v6)]));
    items.extend(ipset(&[]));
    let geo = SrsGeoIp::parse(&geoip(&items)).unwrap();
    assert_eq!(geo.ipv4_ranges(), 2);
    assert_eq!(geo.ipv6_ranges(), 2);
    assert_eq!(geo.ipv4_ranges() + geo.ipv6_ranges(), 1 + 3 + 0);
}
