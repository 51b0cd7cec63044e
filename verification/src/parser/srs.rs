//! SRS rule sets in full: any number of default and logical rules, with every
//! rule item of format versions 1 to 4.
use vstd::prelude::*;
use vstd::std_specs::convert::FromSpecImpl;
use vstd::utf8::{decode_utf8, valid_utf8, encode_utf8};
use crate::bitmap::{
    lemma_lowest_set_bit, lemma_ones_below_flat, lemma_high_mask, lemma_split_index,
    bit, bit_at, count_ones, lemma_bit_value, lemma_masked_popcount, lemma_ones_before_total,
    lemma_ones_before_word, lemma_ones_below_bounds, lemma_ones_in_words_bounds,
    lemma_ones_before_monotone, ones_before, ones_below, ones_in_words, popcount, zeros_before,
};
use crate::ip::IpAddress;
use crate::text::{
    decimal_text, hex_text, push_decimal, push_hex, push_str, reverse_domain, str_from_utf8,
    string_from_chars,
};
use crate::wire::{
    be_u128, be_value, lemma_be_value_bound, lemma_uvarint_advances, take_bytes, take_u8,
    take_uvarint, uvarint_stop, Cursor, VarintError,
};
use crate::zlib::{inflate, io_error_text, zlib_inflated};

verus! {

pub const RULE_DEFAULT: u8 = 0;
pub const RULE_LOGICAL: u8 = 1;

pub const ITEM_QUERY_TYPE: u8 = 0;
pub const ITEM_NETWORK: u8 = 1;
pub const ITEM_DOMAIN: u8 = 2;
pub const ITEM_DOMAIN_KEYWORD: u8 = 3;
pub const ITEM_DOMAIN_REGEX: u8 = 4;
pub const ITEM_SOURCE_IP_CIDR: u8 = 5;
pub const ITEM_IP_CIDR: u8 = 6;
pub const ITEM_SOURCE_PORT: u8 = 7;
pub const ITEM_SOURCE_PORT_RANGE: u8 = 8;
pub const ITEM_PORT: u8 = 9;
pub const ITEM_PORT_RANGE: u8 = 10;
pub const ITEM_PROCESS_NAME: u8 = 11;
pub const ITEM_PROCESS_PATH: u8 = 12;
pub const ITEM_PACKAGE_NAME: u8 = 13;
pub const ITEM_WIFI_SSID: u8 = 14;
pub const ITEM_WIFI_BSSID: u8 = 15;
pub const ITEM_ADGUARD_DOMAIN: u8 = 16;
pub const ITEM_PROCESS_PATH_REGEX: u8 = 17;
pub const ITEM_NETWORK_TYPE: u8 = 18;
pub const ITEM_NETWORK_IS_EXPENSIVE: u8 = 19;
pub const ITEM_NETWORK_IS_CONSTRAINED: u8 = 20;
pub const ITEM_NETWORK_INTERFACE_ADDRESS: u8 = 21;
pub const ITEM_DEFAULT_INTERFACE_ADDRESS: u8 = 22;

pub const ITEM_FINAL: u8 = 0xff;

pub const IPSET_VERSION: u8 = 1;

/// Why a rule set could not be read.
#[derive(Debug)]
pub enum Error {
    Io(std::io::Error),
    Invalid(&'static str),
    InvalidMagic([u8; 3]),
    UnsupportedVersion(u8),
    UnexpectedEof,
    InvalidVarint,
    InvalidUtf8,
    InvalidRuleType(u8),
    InvalidItemType(u8),
    UnsupportedItemType { item_type: u8, srs_version: u8 },
    InvalidIpSetVersion(u8),
    InvalidIpLength(usize),
    InvalidLogicalMode(u8),
    TrailingData,
    UnsupportedDomainVersion(u8),
    UnsupportedSuccinctSetVersion(u8),
}

impl From<std::io::Error> for Error {
    fn from(value: std::io::Error) -> (r: Self) {
        Error::Io(value)
    }
}

impl FromSpecImpl<std::io::Error> for Error {
    open spec fn obeys_from_spec() -> bool {
        true
    }

    open spec fn from_spec(value: std::io::Error) -> Self {
        Error::Io(value)
    }
}

pub type Result<T> = core::result::Result<T, Error>;

/// A parsed rule set.
#[derive(Debug)]
pub struct Srs {
    pub version: u8,
    pub rules: Vec<Rule>,
}

#[derive(Debug)]
pub enum Rule {
    Default(DefaultRule),
    Logical(LogicalRule),
}

#[derive(Debug)]
pub struct DefaultRule {
    pub items: Vec<RuleItem>,
    pub invert: bool,
}

#[derive(Debug)]
pub struct LogicalRule {
    pub mode: LogicalMode,
    pub rules: Vec<Rule>,
    pub invert: bool,
}

#[derive(Debug, Clone, Copy, PartialEq, Eq, Structural)]
pub enum LogicalMode {
    And,
    Or,
}

#[derive(Debug)]
pub enum RuleItem {
    QueryType(Vec<u16>),
    Network(Vec<String>),
    Domain(DomainMatcher),
    DomainKeyword(Vec<String>),
    DomainRegex(Vec<String>),
    SourceIpCidr(IpSet),
    IpCidr(IpSet),
    SourcePort(Vec<u16>),
    SourcePortRange(Vec<String>),
    Port(Vec<u16>),
    PortRange(Vec<String>),
    ProcessName(Vec<String>),
    ProcessPath(Vec<String>),
    PackageName(Vec<String>),
    WifiSsid(Vec<String>),
    WifiBssid(Vec<String>),
    AdGuardDomain,
    ProcessPathRegex(Vec<String>),
    NetworkType(Vec<u8>),
    NetworkIsExpensive,
    NetworkIsConstrained,
    NetworkInterfaceAddress,
    DefaultInterfaceAddress,
}

/// IP ranges, ordered by their first address.
#[derive(Debug)]
pub struct IpSet {
    pub ranges: Vec<IpRange>,
}

/// An inclusive range of addresses of one family.
#[derive(Debug, Clone, Copy)]
pub struct IpRange {
    pub from: IpAddress,
    pub to: IpAddress,
}

/// An address with a prefix length.
#[derive(Debug, Clone, Copy)]
pub struct Prefix {
    pub addr: IpAddress,
    pub prefix_len: u8,
}

/// A domain matcher: a succinct trie over reversed domains.
#[derive(Debug)]
pub struct DomainMatcher {
    set: SuccinctSet,
}

/// A trie in LOUDS form: `label_bitmap` holds, node after node, a 0 for each
/// child and a 1 that closes the node; `labels` holds the label of each
/// edge; `leaves` marks the nodes where a key ends. `ranks` and `selects`
/// index the bitmap.
#[derive(Debug)]
struct SuccinctSet {
    leaves: Vec<u64>,
    label_bitmap: Vec<u64>,
    labels: Vec<u8>,
    ranks: Vec<i32>,
    selects: Vec<i32>,
}

// ------------------------------------------------------------------------
// Models.
// ------------------------------------------------------------------------

/// What a succinct trie holds.
pub struct SuccinctView {
    pub leaves: Seq<u64>,
    pub label_bitmap: Seq<u64>,
    pub labels: Seq<u8>,
}

/// What a rule item holds; text is taken by its characters.
pub enum ItemView {
    QueryType(Seq<u16>),
    Network(Seq<Seq<char>>),
    Domain(SuccinctView),
    DomainKeyword(Seq<Seq<char>>),
    DomainRegex(Seq<Seq<char>>),
    SourceIpCidr(Seq<IpRange>),
    IpCidr(Seq<IpRange>),
    SourcePort(Seq<u16>),
    SourcePortRange(Seq<Seq<char>>),
    Port(Seq<u16>),
    PortRange(Seq<Seq<char>>),
    ProcessName(Seq<Seq<char>>),
    ProcessPath(Seq<Seq<char>>),
    PackageName(Seq<Seq<char>>),
    WifiSsid(Seq<Seq<char>>),
    WifiBssid(Seq<Seq<char>>),
    AdGuardDomain,
    ProcessPathRegex(Seq<Seq<char>>),
    NetworkType(Seq<u8>),
    NetworkIsExpensive,
    NetworkIsConstrained,
    NetworkInterfaceAddress,
    DefaultInterfaceAddress,
}

/// What a rule holds.
pub enum RuleView {
    Default(Seq<ItemView>, bool),
    Logical(LogicalMode, Seq<RuleView>, bool),
}

/// What a rule set holds.
pub struct SrsView {
    pub version: u8,
    pub rules: Seq<RuleView>,
}

/// The characters of each string.
pub open spec fn strings_view(v: Seq<String>) -> Seq<Seq<char>> {
    v.map_values(|t: String| t@)
}

impl View for DomainMatcher {
    type V = SuccinctView;

    closed spec fn view(&self) -> SuccinctView {
        SuccinctView {
            leaves: self.set.leaves@,
            label_bitmap: self.set.label_bitmap@,
            labels: self.set.labels@,
        }
    }
}

/// The model of a rule item.
pub open spec fn item_view(item: RuleItem) -> ItemView {
    match item {
        RuleItem::QueryType(v) => ItemView::QueryType(v@),
        RuleItem::Network(v) => ItemView::Network(strings_view(v@)),
        RuleItem::Domain(m) => ItemView::Domain(m@),
        RuleItem::DomainKeyword(v) => ItemView::DomainKeyword(strings_view(v@)),
        RuleItem::DomainRegex(v) => ItemView::DomainRegex(strings_view(v@)),
        RuleItem::SourceIpCidr(set) => ItemView::SourceIpCidr(set.ranges@),
        RuleItem::IpCidr(set) => ItemView::IpCidr(set.ranges@),
        RuleItem::SourcePort(v) => ItemView::SourcePort(v@),
        RuleItem::SourcePortRange(v) => ItemView::SourcePortRange(strings_view(v@)),
        RuleItem::Port(v) => ItemView::Port(v@),
        RuleItem::PortRange(v) => ItemView::PortRange(strings_view(v@)),
        RuleItem::ProcessName(v) => ItemView::ProcessName(strings_view(v@)),
        RuleItem::ProcessPath(v) => ItemView::ProcessPath(strings_view(v@)),
        RuleItem::PackageName(v) => ItemView::PackageName(strings_view(v@)),
        RuleItem::WifiSsid(v) => ItemView::WifiSsid(strings_view(v@)),
        RuleItem::WifiBssid(v) => ItemView::WifiBssid(strings_view(v@)),
        RuleItem::AdGuardDomain => ItemView::AdGuardDomain,
        RuleItem::ProcessPathRegex(v) => ItemView::ProcessPathRegex(strings_view(v@)),
        RuleItem::NetworkType(v) => ItemView::NetworkType(v@),
        RuleItem::NetworkIsExpensive => ItemView::NetworkIsExpensive,
        RuleItem::NetworkIsConstrained => ItemView::NetworkIsConstrained,
        RuleItem::NetworkInterfaceAddress => ItemView::NetworkInterfaceAddress,
        RuleItem::DefaultInterfaceAddress => ItemView::DefaultInterfaceAddress,
    }
}

/// The models of rule items.
pub open spec fn items_view(v: Seq<RuleItem>) -> Seq<ItemView> {
    v.map_values(|i: RuleItem| item_view(i))
}

/// The models of rules.
pub open spec fn rules_view(rs: Seq<Rule>) -> Seq<RuleView>
    decreases rs,
{
    if rs.len() == 0 {
        Seq::empty()
    } else {
        rules_view(rs.drop_last()).push(rule_view(rs.last()))
    }
}

/// The model of a rule.
pub open spec fn rule_view(r: Rule) -> RuleView
    decreases r,
{
    match r {
        Rule::Default(d) => RuleView::Default(items_view(d.items@), d.invert),
        Rule::Logical(l) => RuleView::Logical(l.mode, rules_view(l.rules@), l.invert),
    }
}

impl View for Srs {
    type V = SrsView;

    open spec fn view(&self) -> SrsView {
        SrsView { version: self.version, rules: rules_view(self.rules@) }
    }
}

pub proof fn lemma_rules_view_push(rs: Seq<Rule>, r: Rule)
    ensures
        rules_view(rs.push(r)) == rules_view(rs).push(rule_view(r)),
{
    assert(rs.push(r).drop_last() =~= rs);
}

// ------------------------------------------------------------------------
// The format, as spec functions over the bytes.
// ------------------------------------------------------------------------

/// How reading can stop short of a value: with an error, or at an input
/// that the reader has no code for (an item of type 21 or 22 in a version 4
/// file) or whose trie is too large for its 32-bit signed indexes.
#[derive(Debug)]
pub enum Failure {
    Error(Error),
    Unfinished(u8),
    Oversized,
}

/// A value read from a position, with the position after it; or how the
/// reading stopped, with the position where it stopped.
pub type Parsed<T> = core::result::Result<(T, int), (Failure, int)>;

/// Reading stops with error `e` at position `pos`.
pub open spec fn fail<T>(e: Error, pos: int) -> Parsed<T> {
    Err((Failure::Error(e), pos))
}

pub open spec fn spec_u8(s: Seq<u8>, pos: int) -> Parsed<u8> {
    match take_u8(s, pos) {
        Some(x) => Ok(x),
        None => fail(Error::UnexpectedEof, pos),
    }
}

pub open spec fn spec_bool(s: Seq<u8>, pos: int) -> Parsed<bool> {
    match spec_u8(s, pos) {
        Err(f) => Err(f),
        Ok((b, p)) => if b == 0 {
            Ok((false, p))
        } else if b == 1 {
            Ok((true, p))
        } else {
            fail(Error::Invalid("invalid boolean value"), p)
        },
    }
}

pub open spec fn spec_exact(s: Seq<u8>, pos: int, len: int) -> Parsed<Seq<u8>> {
    match take_bytes(s, pos, len) {
        Some(x) => Ok(x),
        None => fail(Error::UnexpectedEof, pos),
    }
}

pub open spec fn spec_u16_be(s: Seq<u8>, pos: int) -> Parsed<u16> {
    match spec_exact(s, pos, 2) {
        Err(f) => Err(f),
        Ok((b, p)) => Ok((be_value(b) as u16, p)),
    }
}

pub open spec fn spec_u64_be(s: Seq<u8>, pos: int) -> Parsed<u64> {
    match spec_exact(s, pos, 8) {
        Err(f) => Err(f),
        Ok((b, p)) => Ok((be_value(b) as u64, p)),
    }
}

pub open spec fn spec_uvarint(s: Seq<u8>, pos: int) -> Parsed<u64> {
    match take_uvarint(s, pos) {
        Ok(x) => Ok(x),
        Err(VarintError::Eof) => fail(Error::UnexpectedEof, uvarint_stop(s, pos, VarintError::Eof)),
        Err(VarintError::TooLong) => fail(
            Error::InvalidVarint,
            uvarint_stop(s, pos, VarintError::TooLong),
        ),
    }
}

/// Reading the shortest LEB128 encoding of a value (seven-bit groups, lowest
/// first, the high bit set on all but the last byte) gives the value back,
/// and the reader stops just after the encoding, whatever follows it.
pub proof fn lemma_uvarint_reads_back(v: u64, s: Seq<u8>, pos: int)
    requires
        0 <= pos,
        pos + crate::wire::uvarint_encoding(v as nat).len() <= s.len(),
        s.subrange(pos, pos + crate::wire::uvarint_encoding(v as nat).len()) == crate::wire::uvarint_encoding(
            v as nat,
        ),
    ensures
        spec_uvarint(s, pos) == Ok::<(u64, int), (Failure, int)>((v, pos + crate::wire::uvarint_encoding(v as nat).len())),
{
    crate::wire::lemma_uvarint_round_trip(v, s, pos);
}

/// An unsigned LEB128 count that must fit in `usize`; `e` if it does not.
pub open spec fn spec_count(s: Seq<u8>, pos: int, e: Error) -> Parsed<u64> {
    match spec_uvarint(s, pos) {
        Err(f) => Err(f),
        Ok((n, p)) => if n > usize::MAX {
            fail(e, p)
        } else {
            Ok((n, p))
        },
    }
}

/// `n` more length-prefixed UTF-8 strings.
pub open spec fn spec_strings(s: Seq<u8>, pos: int, n: nat, acc: Seq<Seq<char>>) -> Parsed<
    Seq<Seq<char>>,
>
    decreases n,
{
    if n == 0 {
        Ok((acc, pos))
    } else {
        match spec_count(s, pos, Error::InvalidVarint) {
            Err(f) => Err(f),
            Ok((len, p)) => match spec_exact(s, p, len as int) {
                Err(f) => Err(f),
                Ok((bytes, p2)) => if !valid_utf8(bytes) {
                    fail(Error::InvalidUtf8, p2)
                } else {
                    spec_strings(s, p2, (n - 1) as nat, acc.push(decode_utf8(bytes)))
                },
            },
        }
    }
}

/// A counted array of length-prefixed UTF-8 strings.
pub open spec fn spec_string_array(s: Seq<u8>, pos: int) -> Parsed<Seq<Seq<char>>> {
    match spec_count(s, pos, Error::InvalidVarint) {
        Err(f) => Err(f),
        Ok((n, p)) => spec_strings(s, p, n as nat, Seq::empty()),
    }
}

/// `n` more big-endian `u16` values.
pub open spec fn spec_u16s(s: Seq<u8>, pos: int, n: nat, acc: Seq<u16>) -> Parsed<Seq<u16>>
    decreases n,
{
    if n == 0 {
        Ok((acc, pos))
    } else {
        match spec_u16_be(s, pos) {
            Err(f) => Err(f),
            Ok((v, p)) => spec_u16s(s, p, (n - 1) as nat, acc.push(v)),
        }
    }
}

/// A counted array of big-endian `u16` values.
pub open spec fn spec_u16_array(s: Seq<u8>, pos: int) -> Parsed<Seq<u16>> {
    match spec_count(s, pos, Error::InvalidVarint) {
        Err(f) => Err(f),
        Ok((n, p)) => spec_u16s(s, p, n as nat, Seq::empty()),
    }
}

/// `n` more big-endian `u64` values.
pub open spec fn spec_u64s(s: Seq<u8>, pos: int, n: nat, acc: Seq<u64>) -> Parsed<Seq<u64>>
    decreases n,
{
    if n == 0 {
        Ok((acc, pos))
    } else {
        match spec_exact(s, pos, 8) {
            Err(f) => Err(f),
            Ok((b, p)) => spec_u64s(s, p, (n - 1) as nat, acc.push(be_value(b) as u64)),
        }
    }
}

/// A counted slice of big-endian `u64` values.
pub open spec fn spec_u64_slice(s: Seq<u8>, pos: int) -> Parsed<Seq<u64>> {
    match spec_count(s, pos, Error::Invalid("slice is too large")) {
        Err(f) => Err(f),
        Ok((n, p)) => spec_u64s(s, p, n as nat, Seq::empty()),
    }
}

/// A counted slice of bytes.
pub open spec fn spec_byte_slice(s: Seq<u8>, pos: int) -> Parsed<Seq<u8>> {
    match spec_count(s, pos, Error::Invalid("slice is too large")) {
        Err(f) => Err(f),
        Ok((n, p)) => spec_exact(s, p, n as int),
    }
}

/// `n` more bytes, one value each.
pub open spec fn spec_bytes_each(s: Seq<u8>, pos: int, n: nat, acc: Seq<u8>) -> Parsed<Seq<u8>>
    decreases n,
{
    if n == 0 {
        Ok((acc, pos))
    } else {
        match spec_u8(s, pos) {
            Err(f) => Err(f),
            Ok((v, p)) => spec_bytes_each(s, p, (n - 1) as nat, acc.push(v)),
        }
    }
}

/// A trie small enough for the 32-bit signed ranks and selects: every bit
/// position of the label bitmap fits in an `i32`. The labels are at most
/// `isize::MAX` bytes, as any allocation is.
pub open spec fn trie_fits(bitmap: Seq<u64>, labels: Seq<u8>) -> bool {
    64 * bitmap.len() <= i32::MAX && labels.len() <= isize::MAX
}

/// A domain matcher: a succinct set whose version byte is 0, its leaves, its
/// label bitmap and its labels.
pub open spec fn spec_domain_matcher(s: Seq<u8>, pos: int) -> Parsed<SuccinctView> {
    match spec_u8(s, pos) {
        Err(f) => Err(f),
        Ok((version, p)) => if version != 0 {
            fail(Error::UnsupportedSuccinctSetVersion(version), p)
        } else {
            match spec_u64_slice(s, p) {
                Err(f) => Err(f),
                Ok((leaves, p2)) => match spec_u64_slice(s, p2) {
                    Err(f) => Err(f),
                    Ok((bitmap, p3)) => match spec_byte_slice(s, p3) {
                        Err(f) => Err(f),
                        Ok((labels, p4)) => if !trie_fits(bitmap, labels) {
                            Err((Failure::Oversized, p4))
                        } else {
                            Ok(
                                (
                                    SuccinctView {
                                        leaves: leaves,
                                        label_bitmap: bitmap,
                                        labels: labels,
                                    },
                                    p4,
                                ),
                            )
                        },
                    },
                },
            }
        },
    }
}

/// An address: a LEB128 length, then that many bytes, of which 4 make an
/// IPv4 and 16 an IPv6 address.
pub open spec fn spec_ip(s: Seq<u8>, pos: int) -> Parsed<IpAddress> {
    match spec_count(s, pos, Error::InvalidVarint) {
        Err(f) => Err(f),
        Ok((len, p)) => match spec_exact(s, p, len as int) {
            Err(f) => Err(f),
            Ok((bytes, p2)) => if len == 4 {
                Ok((IpAddress::V4(be_value(bytes) as u32), p2))
            } else if len == 16 {
                Ok((IpAddress::V6(be_value(bytes) as u128), p2))
            } else {
                fail(Error::InvalidIpLength(len as usize), p2)
            },
        },
    }
}

/// `n` more address ranges.
pub open spec fn spec_ip_ranges(s: Seq<u8>, pos: int, n: nat, acc: Seq<IpRange>) -> Parsed<
    Seq<IpRange>,
>
    decreases n,
{
    if n == 0 {
        Ok((acc, pos))
    } else {
        match spec_prefix(s, pos) {
            Err(f) => Err(f),
            Ok((range, p)) => spec_ip_ranges(s, p, (n - 1) as nat, acc.push(range)),
        }
    }
}

/// An address range: its first and its last address.
pub open spec fn spec_prefix(s: Seq<u8>, pos: int) -> Parsed<IpRange> {
    match spec_ip(s, pos) {
        Err(f) => Err(f),
        Ok((from, p)) => match spec_ip(s, p) {
            Err(f) => Err(f),
            Ok((to, p2)) => Ok((IpRange { from: from, to: to }, p2)),
        },
    }
}

/// The order key of an address: IPv4 before IPv6, then by value.
pub open spec fn ip_key(ip: IpAddress) -> (int, int) {
    match ip {
        IpAddress::V4(v) => (0, v as int),
        IpAddress::V6(v) => (1, v as int),
    }
}

/// `a` comes no later than `b` in address order.
pub open spec fn ip_le(a: IpAddress, b: IpAddress) -> bool {
    ip_key(a).0 < ip_key(b).0 || (ip_key(a).0 == ip_key(b).0 && ip_key(a).1 <= ip_key(b).1)
}

/// The number of ranges in `rs` whose first address comes no later than `ip`.
pub open spec fn count_starting_by(rs: Seq<IpRange>, ip: IpAddress) -> nat
    decreases rs.len(),
{
    if rs.len() == 0 {
        0
    } else {
        count_starting_by(rs.drop_last(), ip) + if ip_le(rs.last().from, ip) {
            1nat
        } else {
            0
        }
    }
}

/// Stable sort of ranges by their first address: each range, in input order,
/// is placed after every range already placed whose first address comes no
/// later than its own.
pub open spec fn sort_by_start(rs: Seq<IpRange>) -> Seq<IpRange>
    decreases rs.len(),
{
    if rs.len() == 0 {
        Seq::empty()
    } else {
        let sorted = sort_by_start(rs.drop_last());
        sorted.insert(count_starting_by(sorted, rs.last().from) as int, rs.last())
    }
}

/// An IP set: version byte 1, a big-endian `u64` count of ranges, then the
/// ranges, which are then sorted by their first address.
pub open spec fn spec_ip_set(s: Seq<u8>, pos: int) -> Parsed<Seq<IpRange>> {
    match spec_u8(s, pos) {
        Err(f) => Err(f),
        Ok((version, p)) => if version != IPSET_VERSION {
            fail(Error::InvalidIpSetVersion(version), p)
        } else {
            match spec_u64_be(s, p) {
                Err(f) => Err(f),
                Ok((count, p2)) => if count > usize::MAX {
                    fail(Error::InvalidVarint, p2)
                } else {
                    match spec_ip_ranges(s, p2, count as nat, Seq::empty()) {
                        Err(f) => Err(f),
                        Ok((ranges, p3)) => Ok((sort_by_start(ranges), p3)),
                    }
                },
            }
        },
    }
}

/// The item types that a file version does not have.
pub open spec fn item_too_new(item_type: u8, version: u8) -> bool {
    ||| item_type == ITEM_ADGUARD_DOMAIN && version < 2
    ||| (item_type == ITEM_NETWORK_TYPE || item_type == ITEM_NETWORK_IS_EXPENSIVE
        || item_type == ITEM_NETWORK_IS_CONSTRAINED) && version < 3
    ||| (item_type == ITEM_NETWORK_INTERFACE_ADDRESS || item_type == ITEM_DEFAULT_INTERFACE_ADDRESS)
        && version < 4
}

/// The payload of a rule item of type `t`, from `pos` on.
pub open spec fn spec_item(s: Seq<u8>, pos: int, t: u8, version: u8) -> Parsed<ItemView> {
    if item_too_new(t, version) {
        fail(Error::UnsupportedItemType { item_type: t, srs_version: version }, pos)
    } else if t == ITEM_QUERY_TYPE || t == ITEM_SOURCE_PORT || t == ITEM_PORT {
        match spec_u16_array(s, pos) {
            Err(f) => Err(f),
            Ok((v, p)) => Ok(
                (
                    if t == ITEM_QUERY_TYPE {
                        ItemView::QueryType(v)
                    } else if t == ITEM_SOURCE_PORT {
                        ItemView::SourcePort(v)
                    } else {
                        ItemView::Port(v)
                    },
                    p,
                ),
            ),
        }
    } else if t == ITEM_DOMAIN {
        match spec_domain_matcher(s, pos) {
            Err(f) => Err(f),
            Ok((m, p)) => Ok((ItemView::Domain(m), p)),
        }
    } else if t == ITEM_SOURCE_IP_CIDR || t == ITEM_IP_CIDR {
        match spec_ip_set(s, pos) {
            Err(f) => Err(f),
            Ok((r, p)) => Ok(
                (
                    if t == ITEM_SOURCE_IP_CIDR {
                        ItemView::SourceIpCidr(r)
                    } else {
                        ItemView::IpCidr(r)
                    },
                    p,
                ),
            ),
        }
    } else if t == ITEM_ADGUARD_DOMAIN {
        Ok((ItemView::AdGuardDomain, pos))
    } else if t == ITEM_NETWORK_TYPE {
        match spec_count(s, pos, Error::InvalidVarint) {
            Err(f) => Err(f),
            Ok((n, p)) => match spec_bytes_each(s, p, n as nat, Seq::empty()) {
                Err(f) => Err(f),
                Ok((v, p2)) => Ok((ItemView::NetworkType(v), p2)),
            },
        }
    } else if t == ITEM_NETWORK_IS_EXPENSIVE {
        Ok((ItemView::NetworkIsExpensive, pos))
    } else if t == ITEM_NETWORK_IS_CONSTRAINED {
        Ok((ItemView::NetworkIsConstrained, pos))
    } else if t == ITEM_NETWORK_INTERFACE_ADDRESS || t == ITEM_DEFAULT_INTERFACE_ADDRESS {
        Err((Failure::Unfinished(t), pos))
    } else if string_item(t) {
        match spec_string_array(s, pos) {
            Err(f) => Err(f),
            Ok((v, p)) => Ok((string_item_view(t, v), p)),
        }
    } else {
        fail(Error::InvalidItemType(t), pos)
    }
}

/// The item types whose payload is a string array.
pub open spec fn string_item(t: u8) -> bool {
    t == ITEM_NETWORK || t == ITEM_DOMAIN_KEYWORD || t == ITEM_DOMAIN_REGEX
        || t == ITEM_SOURCE_PORT_RANGE || t == ITEM_PORT_RANGE || t == ITEM_PROCESS_NAME
        || t == ITEM_PROCESS_PATH || t == ITEM_PACKAGE_NAME || t == ITEM_WIFI_SSID
        || t == ITEM_WIFI_BSSID || t == ITEM_PROCESS_PATH_REGEX
}

/// The item of string-array type `t` with strings `v`.
pub open spec fn string_item_view(t: u8, v: Seq<Seq<char>>) -> ItemView {
    if t == ITEM_NETWORK {
        ItemView::Network(v)
    } else if t == ITEM_DOMAIN_KEYWORD {
        ItemView::DomainKeyword(v)
    } else if t == ITEM_DOMAIN_REGEX {
        ItemView::DomainRegex(v)
    } else if t == ITEM_SOURCE_PORT_RANGE {
        ItemView::SourcePortRange(v)
    } else if t == ITEM_PORT_RANGE {
        ItemView::PortRange(v)
    } else if t == ITEM_PROCESS_NAME {
        ItemView::ProcessName(v)
    } else if t == ITEM_PROCESS_PATH {
        ItemView::ProcessPath(v)
    } else if t == ITEM_PACKAGE_NAME {
        ItemView::PackageName(v)
    } else if t == ITEM_WIFI_SSID {
        ItemView::WifiSsid(v)
    } else if t == ITEM_WIFI_BSSID {
        ItemView::WifiBssid(v)
    } else {
        ItemView::ProcessPathRegex(v)
    }
}

/// The items of a default rule from `pos` on, up to the final item and the
/// invert flag after it.
pub open spec fn spec_default_items(s: Seq<u8>, pos: int, version: u8, acc: Seq<ItemView>) -> Parsed<
    RuleView,
>
    decreases s.len() - pos,
{
    match spec_u8(s, pos) {
        Err(f) => Err(f),
        Ok((t, p)) => if t == ITEM_FINAL {
            match spec_bool(s, p) {
                Err(f) => Err(f),
                Ok((invert, p2)) => Ok((RuleView::Default(acc, invert), p2)),
            }
        } else {
            match spec_item(s, p, t, version) {
                Err(f) => Err(f),
                Ok((item, p2)) => {
                    proof {
                        lemma_item_advances(s, p, t, version);
                    }
                    spec_default_items(s, p2, version, acc.push(item))
                },
            }
        },
    }
}

/// A rule: its type byte, then a default or a logical rule.
pub open spec fn spec_rule(s: Seq<u8>, pos: int, version: u8) -> Parsed<RuleView>
    decreases s.len() - pos, 0nat,
{
    match spec_u8(s, pos) {
        Err(f) => Err(f),
        Ok((t, p)) => if t == RULE_DEFAULT {
            spec_default_items(s, p, version, Seq::empty())
        } else if t == RULE_LOGICAL {
            spec_logical(s, p, version)
        } else {
            fail(Error::InvalidRuleType(t), p)
        },
    }
}

/// A logical rule: its mode byte, a count of sub-rules, the sub-rules and
/// the invert flag.
pub open spec fn spec_logical(s: Seq<u8>, pos: int, version: u8) -> Parsed<RuleView>
    decreases s.len() - pos, 0nat,
{
    match spec_u8(s, pos) {
        Err(f) => Err(f),
        Ok((m, p)) => if m > 1 {
            fail(Error::InvalidLogicalMode(m), p)
        } else {
            match spec_count(s, p, Error::InvalidVarint) {
                Err(f) => Err(f),
                Ok((n, p2)) => {
                    proof {
                        lemma_uvarint_advances(s, p);
                    }
                    match spec_rules(s, p2, version, n as nat, Seq::empty()) {
                        Err(f) => Err(f),
                        Ok((rules, p3)) => match spec_bool(s, p3) {
                            Err(f) => Err(f),
                            Ok((invert, p4)) => Ok(
                                (
                                    RuleView::Logical(
                                        if m == 0 {
                                            LogicalMode::And
                                        } else {
                                            LogicalMode::Or
                                        },
                                        rules,
                                        invert,
                                    ),
                                    p4,
                                ),
                            ),
                        },
                    }
                },
            }
        },
    }
}

/// `n` more rules. A rule always takes at least one byte
/// (`lemma_rule_advances`), so the last branch is never taken.
pub open spec fn spec_rules(s: Seq<u8>, pos: int, version: u8, n: nat, acc: Seq<RuleView>) -> Parsed<
    Seq<RuleView>,
>
    decreases s.len() - pos, n,
{
    if n == 0 {
        Ok((acc, pos))
    } else {
        match spec_rule(s, pos, version) {
            Err(f) => Err(f),
            Ok((r, p)) => if pos < p <= s.len() {
                spec_rules(s, p, version, (n - 1) as nat, acc.push(r))
            } else {
                Ok((acc, pos))
            },
        }
    }
}

/// The inflated body of a rule set of file version `version`: a count of
/// rules, the rules, and nothing after them.
pub open spec fn spec_payload(s: Seq<u8>, version: u8) -> core::result::Result<
    Seq<RuleView>,
    Failure,
> {
    match spec_count(s, 0, Error::InvalidVarint) {
        Err((f, _)) => Err(f),
        Ok((n, p)) => match spec_rules(s, p, version, n as nat, Seq::empty()) {
            Err((f, _)) => Err(f),
            Ok((rules, p2)) => if p2 != s.len() {
                Err(Failure::Error(Error::TrailingData))
            } else {
                Ok(rules)
            },
        },
    }
}

/// The file header: the magic `SRS`, then a version from 1 to 4. The zlib
/// body starts after these four bytes.
pub open spec fn spec_header(data: Seq<u8>) -> core::result::Result<u8, Error> {
    if data.len() < 3 {
        Err(Error::UnexpectedEof)
    } else if data.subrange(0, 3) != seq![0x53u8, 0x52u8, 0x53u8] {
        Err(Error::InvalidMagic([data[0], data[1], data[2]]))
    } else if data.len() < 4 {
        Err(Error::UnexpectedEof)
    } else if !(1 <= data[3] <= 4) {
        Err(Error::UnsupportedVersion(data[3]))
    } else {
        Ok(data[3])
    }
}

/// A rule set file whose reading ends with a value or an error, not at an
/// input that the reader has no code for.
pub open spec fn parse_defined(data: Seq<u8>) -> bool {
    spec_header(data) matches Ok(version) ==> (zlib_inflated(data.subrange(4, data.len() as int))
        matches Some(body) ==> !(spec_payload(body, version) matches Err(f) && !(f is Error)))
}

// ------------------------------------------------------------------------
// Lemmas on the format.
// ------------------------------------------------------------------------

pub proof fn lemma_count_advances(s: Seq<u8>, pos: int, e: Error)
    ensures
        spec_count(s, pos, e) matches Ok((n, p)) ==> pos < p <= s.len(),
{
    lemma_uvarint_advances(s, pos);
}

pub proof fn lemma_strings_advances(s: Seq<u8>, pos: int, n: nat, acc: Seq<Seq<char>>)
    requires
        pos <= s.len(),
    ensures
        spec_strings(s, pos, n, acc) matches Ok((v, p)) ==> pos <= p <= s.len(),
    decreases n,
{
    if n > 0 {
        lemma_count_advances(s, pos, Error::InvalidVarint);
        if let Ok((len, p)) = spec_count(s, pos, Error::InvalidVarint) {
            if let Ok((bytes, p2)) = spec_exact(s, p, len as int) {
                if valid_utf8(bytes) {
                    lemma_strings_advances(s, p2, (n - 1) as nat, acc.push(decode_utf8(bytes)));
                }
            }
        }
    }
}

pub proof fn lemma_u16s_advances(s: Seq<u8>, pos: int, n: nat, acc: Seq<u16>)
    requires
        pos <= s.len(),
    ensures
        spec_u16s(s, pos, n, acc) matches Ok((v, p)) ==> pos <= p <= s.len(),
    decreases n,
{
    if n > 0 {
        if let Ok((v, p)) = spec_u16_be(s, pos) {
            lemma_u16s_advances(s, p, (n - 1) as nat, acc.push(v));
        }
    }
}

pub proof fn lemma_u64s_advances(s: Seq<u8>, pos: int, n: nat, acc: Seq<u64>)
    requires
        pos <= s.len(),
    ensures
        spec_u64s(s, pos, n, acc) matches Ok((v, p)) ==> pos <= p <= s.len(),
    decreases n,
{
    if n > 0 {
        if let Ok((b, p)) = spec_exact(s, pos, 8) {
            lemma_u64s_advances(s, p, (n - 1) as nat, acc.push(be_value(b) as u64));
        }
    }
}

pub proof fn lemma_bytes_each_advances(s: Seq<u8>, pos: int, n: nat, acc: Seq<u8>)
    requires
        pos <= s.len(),
    ensures
        spec_bytes_each(s, pos, n, acc) matches Ok((v, p)) ==> pos <= p <= s.len(),
    decreases n,
{
    if n > 0 {
        if let Ok((v, p)) = spec_u8(s, pos) {
            lemma_bytes_each_advances(s, p, (n - 1) as nat, acc.push(v));
        }
    }
}

pub proof fn lemma_ip_ranges_advances(s: Seq<u8>, pos: int, n: nat, acc: Seq<IpRange>)
    requires
        pos <= s.len(),
    ensures
        spec_ip_ranges(s, pos, n, acc) matches Ok((v, p)) ==> pos <= p <= s.len(),
    decreases n,
{
    if n > 0 {
        lemma_count_advances(s, pos, Error::InvalidVarint);
        if let Ok((from, p)) = spec_ip(s, pos) {
            lemma_count_advances(s, p, Error::InvalidVarint);
            if let Ok((range, p2)) = spec_prefix(s, pos) {
                lemma_ip_ranges_advances(s, p2, (n - 1) as nat, acc.push(range));
            }
        }
    }
}

/// The payload of an item lies within the data and after its start.
pub proof fn lemma_item_advances(s: Seq<u8>, pos: int, t: u8, version: u8)
    requires
        0 <= pos <= s.len(),
    ensures
        spec_item(s, pos, t, version) matches Ok((v, p)) ==> pos <= p <= s.len(),
{
    lemma_count_advances(s, pos, Error::InvalidVarint);
    if let Ok((n, p)) = spec_count(s, pos, Error::InvalidVarint) {
        lemma_strings_advances(s, p, n as nat, Seq::empty());
        lemma_u16s_advances(s, p, n as nat, Seq::empty());
        lemma_bytes_each_advances(s, p, n as nat, Seq::empty());
    }
    if let Ok((version_byte, p)) = spec_u8(s, pos) {
        lemma_count_advances(s, p, Error::Invalid("slice is too large"));
        if let Ok((n, p2)) = spec_count(s, p, Error::Invalid("slice is too large")) {
            lemma_u64s_advances(s, p2, n as nat, Seq::empty());
            if let Ok((leaves, p3)) = spec_u64_slice(s, p) {
                lemma_count_advances(s, p3, Error::Invalid("slice is too large"));
                if let Ok((n2, p4)) = spec_count(s, p3, Error::Invalid("slice is too large")) {
                    lemma_u64s_advances(s, p4, n2 as nat, Seq::empty());
                    if let Ok((bitmap, p5)) = spec_u64_slice(s, p3) {
                        lemma_count_advances(s, p5, Error::Invalid("slice is too large"));
                    }
                }
            }
        }
        if let Ok((count, p2)) = spec_u64_be(s, p) {
            if count <= usize::MAX {
                lemma_ip_ranges_advances(s, p2, count as nat, Seq::empty());
            }
        }
    }
}

/// A rule takes at least one byte and lies within the data.
pub proof fn lemma_rule_advances(s: Seq<u8>, pos: int, version: u8)
    ensures
        spec_rule(s, pos, version) matches Ok((r, p)) ==> pos < p <= s.len(),
    decreases s.len() - pos, 1nat,
{
    if let Ok((t, p)) = spec_u8(s, pos) {
        if t == RULE_DEFAULT {
            lemma_default_items_advances(s, p, version, Seq::empty());
        } else if t == RULE_LOGICAL {
            lemma_logical_advances(s, p, version);
        }
    }
}

proof fn lemma_default_items_advances(s: Seq<u8>, pos: int, version: u8, acc: Seq<ItemView>)
    ensures
        spec_default_items(s, pos, version, acc) matches Ok((r, p)) ==> pos < p <= s.len(),
    decreases s.len() - pos,
{
    if let Ok((t, p)) = spec_u8(s, pos) {
        if t != ITEM_FINAL {
            lemma_item_advances(s, p, t, version);
            if let Ok((item, p2)) = spec_item(s, p, t, version) {
                lemma_default_items_advances(s, p2, version, acc.push(item));
            }
        }
    }
}

proof fn lemma_logical_advances(s: Seq<u8>, pos: int, version: u8)
    ensures
        spec_logical(s, pos, version) matches Ok((r, p)) ==> pos < p <= s.len(),
    decreases s.len() - pos, 1nat,
{
    if let Ok((m, p)) = spec_u8(s, pos) {
        if m <= 1 {
            lemma_count_advances(s, p, Error::InvalidVarint);
            if let Ok((n, p2)) = spec_count(s, p, Error::InvalidVarint) {
                lemma_rules_advances(s, p2, version, n as nat, Seq::empty());
            }
        }
    }
}

proof fn lemma_rules_advances(s: Seq<u8>, pos: int, version: u8, n: nat, acc: Seq<RuleView>)
    requires
        pos <= s.len(),
    ensures
        spec_rules(s, pos, version, n, acc) matches Ok((r, p)) ==> pos <= p <= s.len(),
    decreases s.len() - pos, n,
{
    if n > 0 {
        if let Ok((r, p)) = spec_rule(s, pos, version) {
            if pos < p <= s.len() {
                lemma_rules_advances(s, p, version, (n - 1) as nat, acc.push(r));
            }
        }
    }
}


// ------------------------------------------------------------------------
// What the bytes of a rule decide.
// ------------------------------------------------------------------------

/// What the bytes of a rule that lies from `pos` to `end` fix of it: its
/// type byte decides whether it is a default or a logical rule; a logical
/// rule has mode And for mode byte 0 and Or for mode byte 1; and either kind
/// is inverted exactly when its last byte is 1 (0 otherwise), a default
/// rule's last byte following the final item byte `0xff`.
pub open spec fn rule_bytes_agree(r: RuleView, s: Seq<u8>, pos: int, end: int) -> bool {
    &&& 0 <= pos
    &&& pos + 2 < end <= s.len()
    &&& (s[end - 1] == 0 || s[end - 1] == 1)
    &&& s[pos] == RULE_DEFAULT ==> (r matches RuleView::Default(_, invert) && s[end - 2] == ITEM_FINAL
        && (invert <==> s[end - 1] == 1))
    &&& s[pos] == RULE_LOGICAL ==> (r matches RuleView::Logical(mode, _, invert) && (mode
        == LogicalMode::And <==> s[pos + 1] == 0) && (mode == LogicalMode::Or <==> s[pos + 1] == 1)
        && (invert <==> s[end - 1] == 1))
    &&& (s[pos] == RULE_DEFAULT || s[pos] == RULE_LOGICAL)
}

/// The items of a default rule end with the final item byte and the invert
/// byte, and the rule is inverted exactly when that byte is 1.
proof fn lemma_default_items_bytes(s: Seq<u8>, pos: int, version: u8, acc: Seq<ItemView>)
    requires
        0 <= pos,
    ensures
        spec_default_items(s, pos, version, acc) matches Ok((r, p)) ==> (pos + 2 <= p <= s.len()
            && s[p - 2] == ITEM_FINAL && (s[p - 1] == 0 || s[p - 1] == 1) && (r matches RuleView::Default(
            _,
            invert,
        ) && (invert <==> s[p - 1] == 1))),
    decreases s.len() - pos,
{
    if let Ok((t, p)) = spec_u8(s, pos) {
        if t != ITEM_FINAL {
            lemma_item_advances(s, p, t, version);
            if let Ok((item, p2)) = spec_item(s, p, t, version) {
                lemma_default_items_bytes(s, p2, version, acc.push(item));
            }
        }
    }
}

/// A logical rule read from `pos` (its mode byte) has the mode its mode
/// byte names and is inverted exactly when its last byte is 1.
proof fn lemma_logical_bytes(s: Seq<u8>, pos: int, version: u8)
    requires
        0 <= pos,
    ensures
        spec_logical(s, pos, version) matches Ok((r, p)) ==> (pos + 1 < p <= s.len() && (s[p - 1] == 0
            || s[p - 1] == 1) && (r matches RuleView::Logical(mode, _, invert) && (mode == LogicalMode::And
            <==> s[pos] == 0) && (mode == LogicalMode::Or <==> s[pos] == 1) && (invert <==> s[p - 1] == 1))),
{
    if let Ok((m, p)) = spec_u8(s, pos) {
        if m <= 1 {
            lemma_count_advances(s, p, Error::InvalidVarint);
            if let Ok((n, p2)) = spec_count(s, p, Error::InvalidVarint) {
                lemma_rules_advances(s, p2, version, n as nat, Seq::empty());
            }
        }
    }
}

/// Every rule read from the bytes is what its bytes say: a default rule for
/// type byte 0 and a logical rule for type byte 1; a logical rule with mode
/// byte 0 is an And rule and one with mode byte 1 an Or rule; and a rule is
/// inverted exactly when its invert byte, its last, is 1.
pub proof fn lemma_rule_bytes(s: Seq<u8>, pos: int, version: u8)
    requires
        0 <= pos,
    ensures
        spec_rule(s, pos, version) matches Ok((r, p)) ==> rule_bytes_agree(r, s, pos, p),
{
    if let Ok((t, p)) = spec_u8(s, pos) {
        if t == RULE_DEFAULT {
            lemma_default_items_bytes(s, p, version, Seq::empty());
        } else if t == RULE_LOGICAL {
            lemma_logical_bytes(s, p, version);
        }
    }
}

/// The rules read so far stay, in order, at the front of the rules read.
proof fn lemma_rules_keep(s: Seq<u8>, pos: int, version: u8, n: nat, acc: Seq<RuleView>)
    ensures
        spec_rules(s, pos, version, n, acc) matches Ok((rs, p)) ==> acc.len() <= rs.len()
            && rs.subrange(0, acc.len() as int) == acc,
    decreases s.len() - pos, n,
{
    if n > 0 {
        if let Ok((r, p)) = spec_rule(s, pos, version) {
            if pos < p <= s.len() {
                lemma_rules_keep(s, p, version, (n - 1) as nat, acc.push(r));
                if let Ok((rs, p2)) = spec_rules(s, p, version, (n - 1) as nat, acc.push(r)) {
                    assert(rs.subrange(0, acc.len() as int) =~= acc.push(r).subrange(0, acc.len() as int));
                }
            }
        }
    }
    if n == 0 {
        if let Ok((rs, p)) = spec_rules(s, pos, version, n, acc) {
            assert(rs.subrange(0, acc.len() as int) =~= acc);
        }
    }
}

/// The first rule of a rule-set body is what its bytes say: it starts just
/// after the rule count, and `rule_bytes_agree` holds of it.
pub proof fn lemma_first_rule_bytes(s: Seq<u8>, version: u8)
    ensures
        spec_payload(s, version) matches Ok(rules) ==> (rules.len() > 0 ==> (take_uvarint(s, 0) matches Ok(
            (_, p),
        ) && exists|end: int| rule_bytes_agree(rules[0], s, p, end))),
{
    if let Ok((n, p)) = spec_count(s, 0, Error::InvalidVarint) {
        lemma_uvarint_advances(s, 0);
        lemma_rules_keep(s, p, version, n as nat, Seq::empty());
        if n > 0 {
            if let Ok((r, p1)) = spec_rule(s, p, version) {
                lemma_rule_bytes(s, p, version);
                lemma_rule_advances(s, p, version);
                lemma_rules_keep(s, p1, version, (n - 1) as nat, seq![r]);
                assert(Seq::<RuleView>::empty().push(r) =~= seq![r]);
                if let Ok((rs, p2)) = spec_rules(s, p, version, n as nat, Seq::empty()) {
                    assert(rs.subrange(0, 1)[0] == r);
                    assert(rule_bytes_agree(rs[0], s, p, p1));
                }
            }
        }
    }
}

/// The item that type byte `t` names: 0 query types, 1 networks, 2 a domain
/// matcher, 3 domain keywords, 4 domain regexes, 5 source IP CIDRs, 6 IP
/// CIDRs, 7 source ports, 8 source port ranges, 9 ports, 10 port ranges, 11
/// process names, 12 process paths, 13 package names, 14 Wi-Fi SSIDs, 15
/// Wi-Fi BSSIDs, 16 AdGuard domain, 17 process path regexes, 18 network
/// types, 19 network is expensive, 20 network is constrained.
pub open spec fn item_is_type(item: ItemView, t: u8) -> bool {
    match item {
        ItemView::QueryType(_) => t == 0,
        ItemView::Network(_) => t == 1,
        ItemView::Domain(_) => t == 2,
        ItemView::DomainKeyword(_) => t == 3,
        ItemView::DomainRegex(_) => t == 4,
        ItemView::SourceIpCidr(_) => t == 5,
        ItemView::IpCidr(_) => t == 6,
        ItemView::SourcePort(_) => t == 7,
        ItemView::SourcePortRange(_) => t == 8,
        ItemView::Port(_) => t == 9,
        ItemView::PortRange(_) => t == 10,
        ItemView::ProcessName(_) => t == 11,
        ItemView::ProcessPath(_) => t == 12,
        ItemView::PackageName(_) => t == 13,
        ItemView::WifiSsid(_) => t == 14,
        ItemView::WifiBssid(_) => t == 15,
        ItemView::AdGuardDomain => t == 16,
        ItemView::ProcessPathRegex(_) => t == 17,
        ItemView::NetworkType(_) => t == 18,
        ItemView::NetworkIsExpensive => t == 19,
        ItemView::NetworkIsConstrained => t == 20,
        ItemView::NetworkInterfaceAddress => t == 21,
        ItemView::DefaultInterfaceAddress => t == 22,
    }
}

/// An item read with type byte `t` is the item that `t` names; types above
/// 22 are refused as invalid, with the reader where it stood; and a type that
/// the file version does not have yet (16 before version 2, 18 to 20 before
/// version 3, 21 and 22 before version 4) is refused as unsupported, with
/// the reader where it stood.
pub proof fn lemma_item_type(s: Seq<u8>, pos: int, t: u8, version: u8)
    ensures
        spec_item(s, pos, t, version) matches Ok((item, _)) ==> item_is_type(item, t) && t <= 20 && (t
            == 16 ==> version >= 2) && (18 <= t <= 20 ==> version >= 3),
        t > 22 ==> spec_item(s, pos, t, version) == Err::<(ItemView, int), (Failure, int)>(
            (Failure::Error(Error::InvalidItemType(t)), pos),
        ),
        ((t == 16 && version < 2) || (18 <= t <= 20 && version < 3) || (21 <= t <= 22 && version < 4))
            ==> spec_item(s, pos, t, version) == Err::<(ItemView, int), (Failure, int)>(
            (Failure::Error(Error::UnsupportedItemType { item_type: t, srs_version: version }), pos),
        ),
{
}

/// The address at `q`: a LEB128 length, 4 for an IPv4 and 16 for an IPv6
/// address, then that many bytes, whose big-endian value it is; with the
/// position after it.
pub open spec fn ip_at(s: Seq<u8>, q: int) -> Option<(IpAddress, int)> {
    match take_uvarint(s, q) {
        Ok((w, a)) => if 0 <= a && w == 4 && a + 4 <= s.len() {
            Some((IpAddress::V4(be_value(s.subrange(a, a + 4)) as u32), a + 4))
        } else if 0 <= a && w == 16 && a + 16 <= s.len() {
            Some((IpAddress::V6(be_value(s.subrange(a, a + 16)) as u128), a + 16))
        } else {
            None
        },
        Err(_) => None,
    }
}

/// An address is read exactly where the bytes hold one, and it is the one
/// they hold.
pub proof fn lemma_ip_bytes(s: Seq<u8>, pos: int)
    requires
        0 <= pos,
    ensures
        spec_ip(s, pos) matches Ok((ip, p)) ==> ip_at(s, pos) == Some((ip, p)),
        ip_at(s, pos) matches Some((ip, p)) ==> spec_ip(s, pos) == Ok::<(IpAddress, int), (Failure, int)>(
            (ip, p),
        ),
{
    lemma_uvarint_advances(s, pos);
}

/// An address range read from the bytes has as first address the address
/// the bytes hold first, and as last address the one that follows it.
pub proof fn lemma_prefix_bytes(s: Seq<u8>, pos: int)
    requires
        0 <= pos,
    ensures
        spec_prefix(s, pos) matches Ok((r, p)) ==> (ip_at(s, pos) matches Some((f, q)) && r.from == f
            && ip_at(s, q) == Some((r.to, p))),
{
    lemma_ip_bytes(s, pos);
    if let Ok((from, p1)) = spec_ip(s, pos) {
        lemma_uvarint_advances(s, pos);
        lemma_ip_bytes(s, p1);
    }
}

/// A domain matcher is read only after the set version byte 0, and an IP
/// set only after the IP set version byte 1.
pub proof fn lemma_version_bytes(s: Seq<u8>, pos: int)
    ensures
        spec_domain_matcher(s, pos) is Ok ==> 0 <= pos < s.len() && s[pos] == 0,
        spec_ip_set(s, pos) is Ok ==> 0 <= pos < s.len() && s[pos] == 1,
{
}

/// A file gets past the header check exactly when it starts with the magic
/// `SRS` and a version from 1 to 4.
pub proof fn lemma_header_accepts(data: Seq<u8>)
    ensures
        spec_header(data) is Ok <==> (data.len() >= 4 && data.subrange(0, 3) == seq![0x53u8, 0x52u8, 0x53u8]
            && 1 <= data[3] <= 4),
        spec_header(data) is Ok ==> spec_header(data) == Ok::<u8, Error>(data[3]),
{
}

// ------------------------------------------------------------------------
// Reading.
// ------------------------------------------------------------------------

/// The outcome of a read against its spec: the value (by `view`) and the
/// position after it, or the same error.
pub open spec fn read_agrees<T, V>(
    r: Result<T>,
    end: int,
    spec: Parsed<V>,
    view: spec_fn(T) -> V,
) -> bool {
    match spec {
        Ok((v, p)) => r matches Ok(x) && view(x) == v && end == p,
        Err((f, p)) => r matches Err(x) && f == Failure::Error(x) && end == p,
    }
}

/// What a read that can also stop short of a value gives.
pub type Step<T> = core::result::Result<T, Failure>;

/// The outcome of a read that can stop short of a value, against its spec.
pub open spec fn step_agrees<T, V>(
    r: Step<T>,
    end: int,
    spec: Parsed<V>,
    view: spec_fn(T) -> V,
) -> bool {
    match spec {
        Ok((v, p)) => r matches Ok(x) && view(x) == v && end == p,
        Err((f, p)) => r matches Err(g) && g == f && end == p,
    }
}

/// Reads the values of a rule set, in order.
struct Reader<'a> {
    cur: Cursor<'a>,
}

impl<'a> Reader<'a> {
    spec fn wf(&self) -> bool {
        self.cur.wf()
    }

    spec fn bytes(&self) -> Seq<u8> {
        self.cur.data@
    }

    spec fn at(&self) -> int {
        self.cur.pos as int
    }

    fn new(data: &'a [u8]) -> (r: Self)
        ensures
            r.wf(),
            r.bytes() == data@,
            r.at() == 0,
    {
        Reader { cur: Cursor::new(data) }
    }

    fn remaining(&self) -> (r: &'a [u8])
        requires
            self.wf(),
        ensures
            r@ == self.bytes().subrange(self.at(), self.bytes().len() as int),
    {
        self.cur.remaining()
    }

    fn read_u8(&mut self) -> (r: Result<u8>)
        requires
            old(self).wf(),
        ensures
            final(self).wf(),
            final(self).bytes() == old(self).bytes(),
            read_agrees(r, final(self).at(), spec_u8(old(self).bytes(), old(self).at()), |x: u8| x),
    {
        match self.cur.read_u8() {
            Some(v) => Ok(v),
            None => Err(Error::UnexpectedEof),
        }
    }

    fn read_bool(&mut self) -> (r: Result<bool>)
        requires
            old(self).wf(),
        ensures
            final(self).wf(),
            final(self).bytes() == old(self).bytes(),
            read_agrees(r, final(self).at(), spec_bool(old(self).bytes(), old(self).at()), |x: bool| x),
    {
        match self.read_u8() {
            Ok(0) => Ok(false),
            Ok(1) => Ok(true),
            Ok(_) => Err(Error::Invalid("invalid boolean value")),
            Err(e) => Err(e),
        }
    }

    fn read_exact(&mut self, len: usize) -> (r: Result<&'a [u8]>)
        requires
            old(self).wf(),
        ensures
            final(self).wf(),
            final(self).bytes() == old(self).bytes(),
            read_agrees(
                r,
                final(self).at(),
                spec_exact(old(self).bytes(), old(self).at(), len as int),
                |x: &'a [u8]| x@,
            ),
    {
        match self.cur.read_exact(len) {
            Some(v) => Ok(v),
            None => Err(Error::UnexpectedEof),
        }
    }

    /// The three bytes of the magic.
    fn read_array(&mut self) -> (r: Result<[u8; 3]>)
        requires
            old(self).wf(),
        ensures
            final(self).wf(),
            final(self).bytes() == old(self).bytes(),
            read_agrees(
                r,
                final(self).at(),
                spec_exact(old(self).bytes(), old(self).at(), 3),
                |x: [u8; 3]| x@,
            ),
    {
        let bytes = match self.read_exact(3) {
            Ok(b) => b,
            Err(e) => {
                return Err(e);
            },
        };
        let arr = [bytes[0], bytes[1], bytes[2]];
        assert(arr@ =~= bytes@);
        Ok(arr)
    }

    fn read_u16_be(&mut self) -> (r: Result<u16>)
        requires
            old(self).wf(),
        ensures
            final(self).wf(),
            final(self).bytes() == old(self).bytes(),
            read_agrees(r, final(self).at(), spec_u16_be(old(self).bytes(), old(self).at()), |x: u16| x),
    {
        let bytes = match self.read_exact(2) {
            Ok(b) => b,
            Err(e) => {
                return Err(e);
            },
        };
        proof {
            lemma_be_value_bound(bytes@);
            vstd::arithmetic::power2::lemma2_to64();
        }
        Ok(be_u128(bytes) as u16)
    }

    fn read_u64_be(&mut self) -> (r: Result<u64>)
        requires
            old(self).wf(),
        ensures
            final(self).wf(),
            final(self).bytes() == old(self).bytes(),
            read_agrees(r, final(self).at(), spec_u64_be(old(self).bytes(), old(self).at()), |x: u64| x),
    {
        let bytes = match self.read_exact(8) {
            Ok(b) => b,
            Err(e) => {
                return Err(e);
            },
        };
        proof {
            lemma_be_value_bound(bytes@);
            vstd::arithmetic::power2::lemma2_to64();
        }
        Ok(be_u128(bytes) as u64)
    }

    fn read_uvarint(&mut self) -> (r: Result<u64>)
        requires
            old(self).wf(),
        ensures
            final(self).wf(),
            final(self).bytes() == old(self).bytes(),
            read_agrees(r, final(self).at(), spec_uvarint(old(self).bytes(), old(self).at()), |x: u64| x),
    {
        match self.cur.read_uvarint() {
            Ok(v) => Ok(v),
            Err(VarintError::Eof) => Err(Error::UnexpectedEof),
            Err(VarintError::TooLong) => Err(Error::InvalidVarint),
        }
    }

    /// A LEB128 count that must fit in `usize`, else `Error::InvalidVarint`.
    fn read_count(&mut self) -> (r: Result<usize>)
        requires
            old(self).wf(),
        ensures
            final(self).wf(),
            final(self).bytes() == old(self).bytes(),
            read_agrees(
                r,
                final(self).at(),
                spec_count(old(self).bytes(), old(self).at(), Error::InvalidVarint),
                |x: usize| x as u64,
            ),
    {
        let n = match self.read_uvarint() {
            Ok(v) => v,
            Err(e) => {
                return Err(e);
            },
        };
        if n > usize::MAX as u64 {
            return Err(Error::InvalidVarint);
        }
        Ok(n as usize)
    }

    fn read_string_array(&mut self) -> (r: Result<Vec<String>>)
        requires
            old(self).wf(),
        ensures
            final(self).wf(),
            final(self).bytes() == old(self).bytes(),
            read_agrees(
                r,
                final(self).at(),
                spec_string_array(old(self).bytes(), old(self).at()),
                |x: Vec<String>| strings_view(x@),
            ),
    {
        let ghost s = self.bytes();
        let ghost start = self.at();
        let count = match self.read_count() {
            Ok(v) => v,
            Err(e) => {
                return Err(e);
            },
        };
        let mut result: Vec<String> = Vec::with_capacity(count);
        assert(strings_view(result@) =~= Seq::<Seq<char>>::empty());
        let mut i: usize = 0;
        while i < count
            invariant
                self.wf(),
                self.bytes() == s,
                s == old(self).bytes(),
                start == old(self).at(),
                i <= count,
                spec_string_array(s, start) == spec_strings(
                    s,
                    self.at(),
                    (count - i) as nat,
                    strings_view(result@),
                ),
            decreases count - i,
        {
            let len = match self.read_count() {
                Ok(v) => v,
                Err(e) => {
                    return Err(e);
                },
            };
            let bytes = match self.read_exact(len) {
                Ok(v) => v,
                Err(e) => {
                    return Err(e);
                },
            };
            let text = match str_from_utf8(bytes) {
                Some(t) => t,
                None => {
                    return Err(Error::InvalidUtf8);
                },
            };
            let value = text.to_owned();
            proof {
                assert(strings_view(result@.push(value)) =~= strings_view(result@).push(value@));
            }
            result.push(value);
            i = i + 1;
        }
        Ok(result)
    }

    fn read_u16_array(&mut self) -> (r: Result<Vec<u16>>)
        requires
            old(self).wf(),
        ensures
            final(self).wf(),
            final(self).bytes() == old(self).bytes(),
            read_agrees(
                r,
                final(self).at(),
                spec_u16_array(old(self).bytes(), old(self).at()),
                |x: Vec<u16>| x@,
            ),
    {
        let ghost s = self.bytes();
        let ghost start = self.at();
        let count = match self.read_count() {
            Ok(v) => v,
            Err(e) => {
                return Err(e);
            },
        };
        let mut result: Vec<u16> = Vec::with_capacity(count);
        let mut i: usize = 0;
        while i < count
            invariant
                self.wf(),
                self.bytes() == s,
                s == old(self).bytes(),
                start == old(self).at(),
                i <= count,
                spec_u16_array(s, start) == spec_u16s(s, self.at(), (count - i) as nat, result@),
            decreases count - i,
        {
            let v = match self.read_u16_be() {
                Ok(v) => v,
                Err(e) => {
                    return Err(e);
                },
            };
            result.push(v);
            i = i + 1;
        }
        Ok(result)
    }

    fn read_u64_slice(&mut self) -> (r: Result<Vec<u64>>)
        requires
            old(self).wf(),
        ensures
            final(self).wf(),
            final(self).bytes() == old(self).bytes(),
            read_agrees(
                r,
                final(self).at(),
                spec_u64_slice(old(self).bytes(), old(self).at()),
                |x: Vec<u64>| x@,
            ),
    {
        let ghost s = self.bytes();
        let ghost start = self.at();
        let len = match self.read_uvarint() {
            Ok(v) => v,
            Err(e) => {
                return Err(e);
            },
        };
        if len > usize::MAX as u64 {
            return Err(Error::Invalid("slice is too large"));
        }
        let len = len as usize;
        let mut result: Vec<u64> = Vec::with_capacity(len);
        let mut i: usize = 0;
        while i < len
            invariant
                self.wf(),
                self.bytes() == s,
                s == old(self).bytes(),
                start == old(self).at(),
                i <= len,
                spec_u64_slice(s, start) == spec_u64s(s, self.at(), (len - i) as nat, result@),
            decreases len - i,
        {
            let value = match self.read_exact(8) {
                Ok(v) => v,
                Err(e) => {
                    return Err(e);
                },
            };
            proof {
                lemma_be_value_bound(value@);
                vstd::arithmetic::power2::lemma2_to64();
            }
            result.push(be_u128(value) as u64);
            i = i + 1;
        }
        Ok(result)
    }

    fn read_byte_slice(&mut self) -> (r: Result<Vec<u8>>)
        requires
            old(self).wf(),
        ensures
            final(self).wf(),
            final(self).bytes() == old(self).bytes(),
            read_agrees(
                r,
                final(self).at(),
                spec_byte_slice(old(self).bytes(), old(self).at()),
                |x: Vec<u8>| x@,
            ),
    {
        let len = match self.read_uvarint() {
            Ok(v) => v,
            Err(e) => {
                return Err(e);
            },
        };
        if len > usize::MAX as u64 {
            return Err(Error::Invalid("slice is too large"));
        }
        let bytes = match self.read_exact(len as usize) {
            Ok(v) => v,
            Err(e) => {
                return Err(e);
            },
        };
        Ok(vstd::slice::slice_to_vec(bytes))
    }
}


/// The model of each rule item, pushed one at a time.
pub proof fn lemma_items_view_push(v: Seq<RuleItem>, x: RuleItem)
    ensures
        items_view(v.push(x)) == items_view(v).push(item_view(x)),
{
    assert(items_view(v.push(x)) =~= items_view(v).push(item_view(x)));
}

/// Whether `a` comes no later than `b` in address order (what the derived
/// order of `(family, value)` keys gives).
fn ip_le_exec(a: IpAddress, b: IpAddress) -> (r: bool)
    ensures
        r == ip_le(a, b),
{
    match (a, b) {
        (IpAddress::V4(x), IpAddress::V4(y)) => x <= y,
        (IpAddress::V6(x), IpAddress::V6(y)) => x <= y,
        (IpAddress::V4(_), IpAddress::V6(_)) => true,
        (IpAddress::V6(_), IpAddress::V4(_)) => false,
    }
}

/// `ip` lies in `r`: both ends and `ip` are of one family and `ip` is
/// between the ends.
pub open spec fn range_contains(r: IpRange, ip: IpAddress) -> bool {
    match (r.from, r.to, ip) {
        (IpAddress::V4(f), IpAddress::V4(t), IpAddress::V4(x)) => f <= x <= t,
        (IpAddress::V6(f), IpAddress::V6(t), IpAddress::V6(x)) => f <= x <= t,
        _ => false,
    }
}

/// An address lies in a range exactly when the range's ends and the address
/// are of one family and the address lies between the ends, both included.
pub proof fn lemma_range_contains_fields(r: IpRange, ip: IpAddress)
    ensures
        range_contains(r, ip) <==> ((r.from matches IpAddress::V4(f) && r.to matches IpAddress::V4(t)
            && ip matches IpAddress::V4(x) && f <= x && x <= t) || (r.from matches IpAddress::V6(f)
            && r.to matches IpAddress::V6(t) && ip matches IpAddress::V6(x) && f <= x && x <= t)),
{
}

/// The ranges are ordered by their first address.
pub open spec fn sorted_by_start(rs: Seq<IpRange>) -> bool {
    forall|i: int, j: int| 0 <= i < j < rs.len() ==> ip_le(#[trigger] rs[i].from, #[trigger] rs[j].from)
}

impl IpRange {
    /// The first address, as the order key of the range.
    fn from_value(&self) -> (r: IpAddress)
        ensures
            r == self.from,
    {
        self.from
    }

    /// Whether `ip` lies in the range: both ends and `ip` are of one family,
    /// and `ip` lies between the ends, both included.
    pub fn contains(&self, ip: IpAddress) -> (r: bool)
        ensures
            r == range_contains(*self, ip),
            r <==> ((self.from matches IpAddress::V4(f) && self.to matches IpAddress::V4(t)
                && ip matches IpAddress::V4(x) && f <= x && x <= t) || (self.from matches IpAddress::V6(f)
                && self.to matches IpAddress::V6(t) && ip matches IpAddress::V6(x) && f <= x && x <= t)),
    {
        proof {
            lemma_range_contains_fields(*self, ip);
        }
        match (self.from, self.to, ip) {
            (IpAddress::V4(from), IpAddress::V4(to), IpAddress::V4(ip)) => from <= ip && ip <= to,
            (IpAddress::V6(from), IpAddress::V6(to), IpAddress::V6(ip)) => from <= ip && ip <= to,
            _ => false,
        }
    }
}

/// When the ranges that start no later than `ip` come first, they are
/// `count_starting_by` many.
proof fn lemma_count_starting_by_prefix(rs: Seq<IpRange>, ip: IpAddress, k: int)
    requires
        0 <= k <= rs.len(),
        forall|j: int| 0 <= j < k ==> ip_le(#[trigger] rs[j].from, ip),
        forall|j: int| k <= j < rs.len() ==> !ip_le(#[trigger] rs[j].from, ip),
    ensures
        count_starting_by(rs, ip) == k,
    decreases rs.len(),
{
    if rs.len() > 0 {
        if k == rs.len() {
            lemma_count_starting_by_prefix(rs.drop_last(), ip, k - 1);
        } else {
            lemma_count_starting_by_prefix(rs.drop_last(), ip, k);
        }
    }
}

impl IpSet {
    /// Whether `ip` lies in the last range that starts no later than it,
    /// found by binary search. A `true` answer always comes from a range that
    /// holds `ip`; where the ranges are ordered by their first address (as
    /// reading an IP set leaves them), the answer is exact.
    pub fn contains(&self, ip: IpAddress) -> (r: bool)
        ensures
            r ==> exists|i: int| 0 <= i < self.ranges@.len() && range_contains(#[trigger] self.ranges@[i], ip),
            sorted_by_start(self.ranges@) ==> r == ({
                let k = count_starting_by(self.ranges@, ip) as int;
                k > 0 && range_contains(self.ranges@[k - 1], ip)
            }),
    {
        let ghost rs = self.ranges@;
        let mut lo: usize = 0;
        let mut hi: usize = self.ranges.len();
        while lo < hi
            invariant
                rs == self.ranges@,
                lo <= hi <= rs.len(),
                sorted_by_start(rs) ==> forall|j: int| 0 <= j < lo ==> ip_le(#[trigger] rs[j].from, ip),
                sorted_by_start(rs) ==> forall|j: int| hi <= j < rs.len() ==> !ip_le(#[trigger] rs[j].from, ip),
            decreases hi - lo,
        {
            let mid = lo + (hi - lo) / 2;
            if ip_le_exec(self.ranges[mid].from_value(), ip) {
                proof {
                    if sorted_by_start(rs) {
                        assert forall|j: int| 0 <= j < mid + 1 implies ip_le(#[trigger] rs[j].from, ip) by {
                            if j < mid {
                                assert(ip_le(rs[j].from, rs[mid as int].from));
                            }
                        }
                    }
                }
                lo = mid + 1;
            } else {
                proof {
                    if sorted_by_start(rs) {
                        assert forall|j: int| mid <= j < rs.len() implies !ip_le(#[trigger] rs[j].from, ip) by {
                            if j > mid {
                                assert(ip_le(rs[mid as int].from, rs[j].from));
                            }
                        }
                    }
                }
                hi = mid;
            }
        }
        proof {
            if sorted_by_start(rs) {
                lemma_count_starting_by_prefix(rs, ip, lo as int);
            }
        }
        lo > 0 && self.ranges[lo - 1].contains(ip)
    }
}

/// Stable sort of ranges by their first address.
fn sort_ranges_by_start(ranges: Vec<IpRange>) -> (r: Vec<IpRange>)
    ensures
        r@ == sort_by_start(ranges@),
{
    let mut sorted: Vec<IpRange> = Vec::with_capacity(ranges.len());
    let mut i: usize = 0;
    assert(ranges@.take(0) =~= Seq::<IpRange>::empty());
    while i < ranges.len()
        invariant
            i <= ranges@.len(),
            sorted@ == sort_by_start(ranges@.take(i as int)),
        decreases ranges@.len() - i,
    {
        let range = ranges[i];
        let key = range.from_value();
        let mut k: usize = 0;
        let mut j: usize = 0;
        assert(sorted@.take(0) =~= Seq::<IpRange>::empty());
        while j < sorted.len()
            invariant
                j <= sorted@.len(),
                k <= j,
                k == count_starting_by(sorted@.take(j as int), key),
            decreases sorted@.len() - j,
        {
            assert(sorted@.take(j + 1).drop_last() =~= sorted@.take(j as int));
            if ip_le_exec(sorted[j].from, key) {
                k = k + 1;
            }
            j = j + 1;
        }
        assert(sorted@.take(j as int) =~= sorted@);
        assert(ranges@.take(i + 1).drop_last() =~= ranges@.take(i as int));
        sorted.insert(k, range);
        i = i + 1;
    }
    assert(ranges@.take(i as int) =~= ranges@);
    sorted
}

/// Reads an address: a LEB128 length, then that many bytes.
fn read_ip(reader: &mut Reader<'_>) -> (r: Result<IpAddress>)
    requires
        old(reader).wf(),
    ensures
        final(reader).wf(),
        final(reader).bytes() == old(reader).bytes(),
        read_agrees(r, final(reader).at(), spec_ip(old(reader).bytes(), old(reader).at()), |x: IpAddress| x),
{
    let len = match reader.read_count() {
        Ok(v) => v,
        Err(e) => {
            return Err(e);
        },
    };
    let bytes = match reader.read_exact(len) {
        Ok(v) => v,
        Err(e) => {
            return Err(e);
        },
    };
    if len == 4 {
        proof {
            lemma_be_value_bound(bytes@);
            vstd::arithmetic::power2::lemma2_to64();
        }
        Ok(IpAddress::V4(be_u128(bytes) as u32))
    } else if len == 16 {
        Ok(IpAddress::V6(be_u128(bytes)))
    } else {
        Err(Error::InvalidIpLength(len))
    }
}

/// Reads an IP set and sorts its ranges by their first address.
fn read_ip_set(reader: &mut Reader<'_>) -> (r: Result<IpSet>)
    requires
        old(reader).wf(),
    ensures
        final(reader).wf(),
        final(reader).bytes() == old(reader).bytes(),
        read_agrees(
            r,
            final(reader).at(),
            spec_ip_set(old(reader).bytes(), old(reader).at()),
            |x: IpSet| x.ranges@,
        ),
{
    let ghost s = reader.bytes();
    let version = match reader.read_u8() {
        Ok(v) => v,
        Err(e) => {
            return Err(e);
        },
    };
    if version != IPSET_VERSION {
        return Err(Error::InvalidIpSetVersion(version));
    }
    let count = match reader.read_u64_be() {
        Ok(v) => v,
        Err(e) => {
            return Err(e);
        },
    };
    if count > usize::MAX as u64 {
        return Err(Error::InvalidVarint);
    }
    let count = count as usize;
    let ghost start = reader.at();
    assert(spec_ip_set(s, old(reader).at()) == match spec_ip_ranges(s, start, count as nat, Seq::empty()) {
        Err(f) => Err(f),
        Ok((rs, p)) => Ok((sort_by_start(rs), p)),
    });
    let mut ranges: Vec<IpRange> = Vec::with_capacity(count);
    let mut i: usize = 0;
    while i < count
        invariant
            reader.wf(),
            reader.bytes() == s,
            s == old(reader).bytes(),
            i <= count,
            spec_ip_set(s, old(reader).at()) == match spec_ip_ranges(s, start, count as nat, Seq::empty()) {
                Err(f) => Err(f),
                Ok((rs, p)) => Ok((sort_by_start(rs), p)),
            },
            spec_ip_ranges(s, start, count as nat, Seq::empty()) == spec_ip_ranges(
                s,
                reader.at(),
                (count - i) as nat,
                ranges@,
            ),
        decreases count - i,
    {
        let from = match read_ip(reader) {
            Ok(v) => v,
            Err(e) => {
                return Err(e);
            },
        };
        let to = match read_ip(reader) {
            Ok(v) => v,
            Err(e) => {
                return Err(e);
            },
        };
        ranges.push(IpRange { from, to });
        i = i + 1;
    }
    let ranges = sort_ranges_by_start(ranges);
    Ok(IpSet { ranges })
}

/// Reads a domain matcher and builds the indexes of its trie; stops with
/// `Failure::Oversized` where the trie is too large for them.
fn read_domain_matcher(reader: &mut Reader<'_>) -> (r: Step<DomainMatcher>)
    requires
        old(reader).wf(),
    ensures
        final(reader).wf(),
        final(reader).bytes() == old(reader).bytes(),
        step_agrees(
            r,
            final(reader).at(),
            spec_domain_matcher(old(reader).bytes(), old(reader).at()),
            |x: DomainMatcher| x@,
        ),
{
    let version = match reader.read_u8() {
        Ok(v) => v,
        Err(e) => {
            return Err(Failure::Error(e));
        },
    };
    if version != 0 {
        return Err(Failure::Error(Error::UnsupportedSuccinctSetVersion(version)));
    }
    let leaves = match reader.read_u64_slice() {
        Ok(v) => v,
        Err(e) => {
            return Err(Failure::Error(e));
        },
    };
    let label_bitmap = match reader.read_u64_slice() {
        Ok(v) => v,
        Err(e) => {
            return Err(Failure::Error(e));
        },
    };
    let labels = match reader.read_byte_slice() {
        Ok(v) => v,
        Err(e) => {
            return Err(Failure::Error(e));
        },
    };
    if label_bitmap.len() > (i32::MAX as usize) / 64 || labels.len() > isize::MAX as usize {
        return Err(Failure::Oversized);
    }
    let mut set = SuccinctSet { leaves, label_bitmap, labels, ranks: Vec::new(), selects: Vec::new() };
    set.init();
    Ok(DomainMatcher { set })
}

// ------------------------------------------------------------------------
// The succinct trie.
// ------------------------------------------------------------------------

/// A rank/select sample: position `v` holds the `32 m`-th set bit.
pub open spec fn sample_ok(bm: Seq<u64>, v: int, m: int) -> bool {
    0 <= v < 64 * bm.len() && bit_at(bm, v) == 1 && ones_before(bm, v) == 32 * m
}

/// The number of set bits of the label bitmap.
pub open spec fn total_ones(bm: Seq<u64>) -> int {
    ones_in_words(bm, bm.len() as int)
}

impl SuccinctSet {
    /// `ranks[k]` counts the set bits in the first `k` words; `selects[m]` is
    /// the position of the `32 m`-th set bit.
    spec fn indexed(&self) -> bool {
        let bm = self.label_bitmap@;
        &&& trie_fits(bm, self.labels@)
        &&& self.ranks@.len() == bm.len() + 1
        &&& forall|k: int| 0 <= k <= bm.len() ==> #[trigger] self.ranks@[k] == ones_in_words(bm, k)
        &&& self.selects@.len() == (total_ones(bm) + 31) / 32
        &&& forall|m: int|
            0 <= m < self.selects@.len() ==> sample_ok(bm, #[trigger] self.selects@[m] as int, m)
    }

    spec fn view(&self) -> SuccinctView {
        SuccinctView {
            leaves: self.leaves@,
            label_bitmap: self.label_bitmap@,
            labels: self.labels@,
        }
    }

    /// Builds `ranks` and `selects` from the label bitmap.
    fn init(&mut self)
        requires
            trie_fits(old(self).label_bitmap@, old(self).labels@),
        ensures
            final(self).view() == old(self).view(),
            final(self).indexed(),
    {
        let ghost bm = self.label_bitmap@;
        let n = self.label_bitmap.len();
        let mut ranks: Vec<i32> = Vec::with_capacity(n + 1);
        let mut total: i32 = 0;
        ranks.push(total);
        let mut k: usize = 0;
        while k < n
            invariant
                bm == self.label_bitmap@,
                n == bm.len(),
                64 * n <= i32::MAX,
                k <= n,
                ranks@.len() == k + 1,
                forall|j: int| 0 <= j <= k ==> #[trigger] ranks@[j] == ones_in_words(bm, j),
                total == ones_in_words(bm, k as int),
            decreases n - k,
        {
            proof {
                lemma_ones_in_words_bounds(bm, k as int + 1);
            }
            let word = self.label_bitmap[k];
            total = total + count_ones(word) as i32;
            ranks.push(total);
            k = k + 1;
        }
        self.ranks = ranks;
        let mut selects: Vec<i32> = Vec::new();
        let mut ones: usize = 0;
        let mut word_index: usize = 0;
        while word_index < n
            invariant
                bm == self.label_bitmap@,
                n == bm.len(),
                64 * n <= i32::MAX,
                word_index <= n,
                ones == ones_in_words(bm, word_index as int),
                selects@.len() == (ones + 31) / 32,
                forall|m: int| 0 <= m < selects@.len() ==> sample_ok(bm, #[trigger] selects@[m] as int, m),
            decreases n - word_index,
        {
            let word = self.label_bitmap[word_index];
            let mut w = word;
            let ghost mut q: int = 0;
            proof {
                lemma_ones_in_words_bounds(bm, word_index as int);
                lemma_ones_before_word(bm, word_index as int, 0);
            }
            while w != 0
                invariant
                    bm == self.label_bitmap@,
                    n == bm.len(),
                    64 * n <= i32::MAX,
                    word_index < n,
                    word == bm[word_index as int],
                    0 <= q <= 64,
                    forall|j: int| 0 <= j < 64 ==> #[trigger] bit(w, j) == if j < q { 0 } else { bit(word, j) },
                    ones == ones_in_words(bm, word_index as int) + ones_below(word, q),
                    ones <= 64 * word_index + q,
                    selects@.len() == (ones + 31) / 32,
                    forall|m: int| 0 <= m < selects@.len() ==> sample_ok(bm, #[trigger] selects@[m] as int, m),
                decreases 64 - q,
            {
                proof {
                    lemma_lowest_set_bit(w);
                }
                let bit_pos = w.trailing_zeros() as usize;
                proof {
                    assert forall|j: int| q <= j < bit_pos implies #[trigger] bit(word, j) == 0 by {
                        assert(bit(w, j) == 0);
                    }
                    lemma_ones_below_flat(word, q, bit_pos as int);
                    assert(bit(word, bit_pos as int) == 1);
                    lemma_ones_before_word(bm, word_index as int, bit_pos as int);
                    let p = 64 * word_index + bit_pos;
                    assert(p / 64 == word_index && p % 64 == bit_pos) by (nonlinear_arith)
                        requires
                            p == 64 * word_index + bit_pos,
                            bit_pos < 64,
                    ;
                    assert(64 * word_index + 64 <= 64 * n) by (nonlinear_arith)
                        requires
                            word_index < n,
                    ;
                    lemma_ones_below_bounds(word, bit_pos as int);
                }
                assert(ones & 31 == 0 <==> ones % 32 == 0) by (bit_vector);
                if ones & 31 == 0 {
                    selects.push((word_index * 64 + bit_pos) as i32);
                }
                ones = ones + 1;
                w = w & (w - 1);
                proof {
                    q = bit_pos as int + 1;
                    assert(ones_below(word, q) == ones_below(word, q - 1) + 1);
                }
            }
            proof {
                assert forall|j: int| q <= j < 64 implies #[trigger] bit(word, j) == 0 by {
                    assert(bit(w, j) == 0) by {
                        let jj = j as u64;
                        assert((0u64 >> jj) & 1 == 0) by (bit_vector);
                    }
                }
                lemma_ones_below_flat(word, q, 64);
            }
            word_index = word_index + 1;
        }
        self.selects = selects;
    }

    /// The number of clear bits before `index`; `index` itself past the end
    /// of the bitmap.
    fn count_zeros(&self, index: usize) -> (r: usize)
        requires
            self.indexed(),
        ensures
            r == count_zeros_at(self.label_bitmap@, index as int),
    {
        let ghost bm = self.label_bitmap@;
        proof {
            lemma_split_index(index);
        }
        let word_index = index >> 6;
        if word_index >= self.label_bitmap.len() {
            return index;
        }
        proof {
            lemma_ones_in_words_bounds(bm, word_index as int);
            assert(64 * word_index <= 64 * bm.len()) by (nonlinear_arith)
                requires
                    word_index < bm.len(),
            ;
        }
        let rank = self.ranks[word_index] as usize;
        let bit_index = index & 63;
        let word = self.label_bitmap[word_index];
        let ones_inside = count_ones(word & mask_low_bits(bit_index)) as usize;
        proof {
            assert(index == 64 * word_index + bit_index);
            lemma_masked_popcount(word, bit_index as u64);
            lemma_ones_before_word(bm, word_index as int, bit_index as int);
            lemma_ones_before_monotone(bm, 0, index as int);
            assert(index < 64 * bm.len());
        }
        index - rank - ones_inside
    }

    /// The position of the set bit with `index` set bits before it, if there
    /// is such a bit.
    fn select_ith_one(&self, index: usize) -> (r: Option<usize>)
        requires
            self.indexed(),
        ensures
            r == select_at(self.label_bitmap@, index as int),
    {
        let ghost bm = self.label_bitmap@;
        let base_index = index / 32;
        let mut remaining = index % 32;
        if base_index >= self.selects.len() {
            proof {
                lemma_ones_before_total(bm, 64 * bm.len() as int);
                lemma_select_none(bm, index as int);
            }
            return None;
        }
        let start = self.selects[base_index] as usize;
        let mut word_index = start / 64;
        proof {
            assert(sample_ok(bm, start as int, base_index as int));
            lemma_split_index(start);
        }
        let mut word = self.label_bitmap[word_index];
        word = word & (!0u64 << (start & 63) as u64);
        let ghost mut low: u64 = (start % 64) as u64;
        proof {
            lemma_ones_before_word(bm, word_index as int, low as int);
            assert(start == 64 * word_index + low);
        }
        loop
            invariant
                self.indexed(),
                bm == self.label_bitmap@,
                word_index < bm.len(),
                low < 64,
                word == bm[word_index as int] & (!0u64 << low),
                remaining + ones_before(bm, 64 * word_index + low) == index,
            decreases bm.len() - word_index,
        {
            let ghost w = bm[word_index as int];
            proof {
                lemma_high_mask(w, low, 64);
                lemma_ones_before_word(bm, word_index as int, low as int);
                lemma_ones_before_word(bm, word_index as int, 64);
                lemma_ones_below_bounds(w, low as int);
                assert(64 * word_index + 64 <= 64 * bm.len()) by (nonlinear_arith)
                    requires
                        word_index < bm.len(),
                ;
            }
            let count = count_ones(word) as usize;
            if remaining < count {
                let bit_pos = match nth_set_bit(word, remaining) {
                    Some(b) => b,
                    None => {
                        return None;
                    },
                };
                proof {
                    lemma_high_mask(w, low, bit_pos as int);
                    lemma_ones_before_word(bm, word_index as int, bit_pos as int);
                    let p = 64 * word_index + bit_pos;
                    assert(p / 64 == word_index && p % 64 == bit_pos) by (nonlinear_arith)
                        requires
                            p == 64 * word_index + bit_pos,
                            bit_pos < 64,
                    ;
                    lemma_select_some(bm, p, index as int);
                }
                return Some(word_index * 64 + bit_pos);
            }
            remaining = remaining - count;
            word_index = word_index + 1;
            if word_index >= self.label_bitmap.len() {
                proof {
                    lemma_ones_before_total(bm, 64 * bm.len() as int);
                }
                return None;
            }
            word = self.label_bitmap[word_index];
            proof {
                let v = word;
                assert(v & (!0u64 << 0u64) == v) by (bit_vector);
                low = 0;
                lemma_ones_before_word(bm, word_index as int, 0);
                lemma_ones_before_word(bm, word_index as int - 1, 64);
            }
        }
    }
}

/// The set bit at `pos` with `k` set bits before it is the one that
/// `select_at` names.
proof fn lemma_select_some(bm: Seq<u64>, pos: int, k: int)
    requires
        is_select(bm, pos, k),
    ensures
        select_at(bm, k) == Some(pos as usize),
{
    lemma_ones_before_monotone(bm, pos, pos + 1);
    lemma_ones_before_monotone(bm, pos + 1, 64 * bm.len() as int);
    lemma_ones_before_total(bm, 64 * bm.len() as int);
    assert(0 <= k < total_ones(bm));
    let c = choose|p: int| is_select(bm, p, k);
    assert(is_select(bm, c, k));
    if c < pos {
        lemma_ones_before_monotone(bm, c + 1, pos);
        assert(false);
    } else if c > pos {
        lemma_ones_before_monotone(bm, pos + 1, c);
        assert(false);
    }
}

/// `p` is a set bit of the bitmap with `k` set bits before it.
pub open spec fn is_select(bm: Seq<u64>, p: int, k: int) -> bool {
    0 <= p < 64 * bm.len() && bit_at(bm, p) == 1 && ones_before(bm, p) == k
}

/// The number of clear bits before `i`, and `i` itself past the end.
pub open spec fn count_zeros_at(bm: Seq<u64>, i: int) -> int {
    if 0 <= i < 64 * bm.len() {
        zeros_before(bm, i)
    } else {
        i
    }
}

/// The position of the set bit with `k` set bits before it, if any.
pub open spec fn select_at(bm: Seq<u64>, k: int) -> Option<usize> {
    if 0 <= k < total_ones(bm) {
        Some((choose|p: int| is_select(bm, p, k)) as usize)
    } else {
        None
    }
}

proof fn lemma_select_none(bm: Seq<u64>, k: int)
    requires
        k >= total_ones(bm),
    ensures
        select_at(bm, k) is None,
{
}

/// The `n`-th lowest set bit of `value`, counting from 0, if it has that
/// many.
fn nth_set_bit(value: u64, n: usize) -> (r: Option<usize>)
    ensures
        match r {
            Some(b) => b < 64 && bit(value, b as int) == 1 && ones_below(value, b as int) == n,
            None => n >= popcount(value),
        },
{
    let mut w = value;
    let mut left = n;
    let ghost mut q: int = 0;
    while w != 0
        invariant
            0 <= q <= 64,
            forall|j: int| 0 <= j < 64 ==> #[trigger] bit(w, j) == if j < q { 0 } else { bit(value, j) },
            n == left + ones_below(value, q),
        decreases 64 - q,
    {
        proof {
            lemma_lowest_set_bit(w);
        }
        let bit_pos = w.trailing_zeros() as usize;
        proof {
            assert(bit(w, bit_pos as int) == 1);
            assert(q <= bit_pos);
            assert forall|j: int| q <= j < bit_pos implies #[trigger] bit(value, j) == 0 by {
                assert(bit(w, j) == 0);
            }
            lemma_ones_below_flat(value, q, bit_pos as int);
            assert(bit(value, bit_pos as int) == 1);
        }
        if left == 0 {
            return Some(bit_pos);
        }
        left = left - 1;
        w = w & (w - 1);
        proof {
            q = bit_pos as int + 1;
        }
    }
    proof {
        assert forall|j: int| q <= j < 64 implies #[trigger] bit(value, j) == 0 by {
            assert(bit(w, j) == 0) by {
                let jj = j as u64;
                assert((0u64 >> jj) & 1 == 0) by (bit_vector);
            }
        }
        lemma_ones_below_flat(value, q, 64);
    }
    None
}

/// `2^n - 1`: the `n` low bits set.
fn mask_low_bits(n: usize) -> (r: u64)
    requires
        n <= 64,
    ensures
        n < 64 ==> r == ((1u64 << n as u64) - 1) as u64,
        n == 64 ==> r == u64::MAX,
{
    if n == 0 {
        assert(((1u64 << 0u64) - 1) as u64 == 0) by (bit_vector);
        0
    } else if n == 64 {
        u64::MAX
    } else {
        let s = n as u64;
        assert(1u64 << s >= 1) by (bit_vector)
            requires
                s < 64,
        ;
        (1u64 << s) - 1
    }
}

/// Bit `index` of a bitmap; 0 past its end.
fn get_bit(bitmap: &[u64], index: usize) -> (r: u64)
    ensures
        r == bit_at(bitmap@, index as int),
{
    proof {
        lemma_split_index(index);
    }
    let word = index >> 6;
    if word >= bitmap.len() {
        return 0;
    }
    (bitmap[word] >> (index & 63) as u64) & 1
}

// ------------------------------------------------------------------------
// Rule items and rules.
// ------------------------------------------------------------------------

/// What a default rule holds.
pub open spec fn default_rule_view(d: DefaultRule) -> RuleView {
    RuleView::Default(items_view(d.items@), d.invert)
}

/// What a logical rule holds.
pub open spec fn logical_rule_view(l: LogicalRule) -> RuleView {
    RuleView::Logical(l.mode, rules_view(l.rules@), l.invert)
}

/// Reads the payload of a rule item of type `item_type`.
fn read_item(reader: &mut Reader<'_>, item_type: u8, version: u8) -> (r: Step<RuleItem>)
    requires
        old(reader).wf(),
    ensures
        final(reader).wf(),
        final(reader).bytes() == old(reader).bytes(),
        step_agrees(
            r,
            final(reader).at(),
            spec_item(old(reader).bytes(), old(reader).at(), item_type, version),
            |x: RuleItem| item_view(x),
        ),
{
    if item_type == ITEM_QUERY_TYPE {
        match reader.read_u16_array() {
            Ok(v) => Ok(RuleItem::QueryType(v)),
            Err(e) => Err(Failure::Error(e)),
        }
    } else if item_type == ITEM_NETWORK {
        match reader.read_string_array() {
            Ok(v) => Ok(RuleItem::Network(v)),
            Err(e) => Err(Failure::Error(e)),
        }
    } else if item_type == ITEM_DOMAIN {
        match read_domain_matcher(reader) {
            Ok(m) => Ok(RuleItem::Domain(m)),
            Err(f) => Err(f),
        }
    } else if item_type == ITEM_DOMAIN_KEYWORD {
        match reader.read_string_array() {
            Ok(v) => Ok(RuleItem::DomainKeyword(v)),
            Err(e) => Err(Failure::Error(e)),
        }
    } else if item_type == ITEM_DOMAIN_REGEX {
        match reader.read_string_array() {
            Ok(v) => Ok(RuleItem::DomainRegex(v)),
            Err(e) => Err(Failure::Error(e)),
        }
    } else if item_type == ITEM_SOURCE_IP_CIDR {
        match read_ip_set(reader) {
            Ok(v) => Ok(RuleItem::SourceIpCidr(v)),
            Err(e) => Err(Failure::Error(e)),
        }
    } else if item_type == ITEM_IP_CIDR {
        match read_ip_set(reader) {
            Ok(v) => Ok(RuleItem::IpCidr(v)),
            Err(e) => Err(Failure::Error(e)),
        }
    } else if item_type == ITEM_SOURCE_PORT {
        match reader.read_u16_array() {
            Ok(v) => Ok(RuleItem::SourcePort(v)),
            Err(e) => Err(Failure::Error(e)),
        }
    } else if item_type == ITEM_SOURCE_PORT_RANGE {
        match reader.read_string_array() {
            Ok(v) => Ok(RuleItem::SourcePortRange(v)),
            Err(e) => Err(Failure::Error(e)),
        }
    } else if item_type == ITEM_PORT {
        match reader.read_u16_array() {
            Ok(v) => Ok(RuleItem::Port(v)),
            Err(e) => Err(Failure::Error(e)),
        }
    } else if item_type == ITEM_PORT_RANGE {
        match reader.read_string_array() {
            Ok(v) => Ok(RuleItem::PortRange(v)),
            Err(e) => Err(Failure::Error(e)),
        }
    } else if item_type == ITEM_PROCESS_NAME {
        match reader.read_string_array() {
            Ok(v) => Ok(RuleItem::ProcessName(v)),
            Err(e) => Err(Failure::Error(e)),
        }
    } else if item_type == ITEM_PROCESS_PATH {
        match reader.read_string_array() {
            Ok(v) => Ok(RuleItem::ProcessPath(v)),
            Err(e) => Err(Failure::Error(e)),
        }
    } else if item_type == ITEM_PACKAGE_NAME {
        match reader.read_string_array() {
            Ok(v) => Ok(RuleItem::PackageName(v)),
            Err(e) => Err(Failure::Error(e)),
        }
    } else if item_type == ITEM_WIFI_SSID {
        match reader.read_string_array() {
            Ok(v) => Ok(RuleItem::WifiSsid(v)),
            Err(e) => Err(Failure::Error(e)),
        }
    } else if item_type == ITEM_WIFI_BSSID {
        match reader.read_string_array() {
            Ok(v) => Ok(RuleItem::WifiBssid(v)),
            Err(e) => Err(Failure::Error(e)),
        }
    } else if item_type == ITEM_ADGUARD_DOMAIN {
        if version < 2 {
            return Err(Failure::Error(Error::UnsupportedItemType { item_type, srs_version: version }));
        }
        Ok(RuleItem::AdGuardDomain)
    } else if item_type == ITEM_PROCESS_PATH_REGEX {
        match reader.read_string_array() {
            Ok(v) => Ok(RuleItem::ProcessPathRegex(v)),
            Err(e) => Err(Failure::Error(e)),
        }
    } else if item_type == ITEM_NETWORK_TYPE {
        if version < 3 {
            return Err(Failure::Error(Error::UnsupportedItemType { item_type, srs_version: version }));
        }
        match read_network_types(reader) {
            Ok(v) => Ok(RuleItem::NetworkType(v)),
            Err(e) => Err(Failure::Error(e)),
        }
    } else if item_type == ITEM_NETWORK_IS_EXPENSIVE {
        if version < 3 {
            return Err(Failure::Error(Error::UnsupportedItemType { item_type, srs_version: version }));
        }
        Ok(RuleItem::NetworkIsExpensive)
    } else if item_type == ITEM_NETWORK_IS_CONSTRAINED {
        if version < 3 {
            return Err(Failure::Error(Error::UnsupportedItemType { item_type, srs_version: version }));
        }
        Ok(RuleItem::NetworkIsConstrained)
    } else if item_type == ITEM_NETWORK_INTERFACE_ADDRESS || item_type == ITEM_DEFAULT_INTERFACE_ADDRESS {
        if version < 4 {
            return Err(Failure::Error(Error::UnsupportedItemType { item_type, srs_version: version }));
        }
        // The payload of these items is not read.
        Err(Failure::Unfinished(item_type))
    } else {
        Err(Failure::Error(Error::InvalidItemType(item_type)))
    }
}

/// A counted list of network-type bytes.
fn read_network_types(reader: &mut Reader<'_>) -> (r: Result<Vec<u8>>)
    requires
        old(reader).wf(),
    ensures
        final(reader).wf(),
        final(reader).bytes() == old(reader).bytes(),
        read_agrees(
            r,
            final(reader).at(),
            match spec_count(old(reader).bytes(), old(reader).at(), Error::InvalidVarint) {
                Err(f) => Err(f),
                Ok((n, p)) => spec_bytes_each(old(reader).bytes(), p, n as nat, Seq::empty()),
            },
            |x: Vec<u8>| x@,
        ),
{
    let ghost s = reader.bytes();
    let count = match reader.read_count() {
        Ok(v) => v,
        Err(e) => {
            return Err(e);
        },
    };
    let ghost whole = spec_bytes_each(s, reader.at(), count as nat, Seq::empty());
    let mut values: Vec<u8> = Vec::with_capacity(count);
    let mut i: usize = 0;
    while i < count
        invariant
            reader.wf(),
            reader.bytes() == s,
            s == old(reader).bytes(),
            i <= count,
            whole == spec_bytes_each(s, reader.at(), (count - i) as nat, values@),
            whole == match spec_count(s, old(reader).at(), Error::InvalidVarint) {
                Err(f) => Err(f),
                Ok((n, p)) => spec_bytes_each(s, p, n as nat, Seq::empty()),
            },
        decreases count - i,
    {
        let v = match reader.read_u8() {
            Ok(v) => v,
            Err(e) => {
                return Err(e);
            },
        };
        values.push(v);
        i = i + 1;
    }
    Ok(values)
}

/// Reads the items of a default rule, up to the final item, and its invert
/// flag.
fn read_default_rule(reader: &mut Reader<'_>, version: u8) -> (r: Step<DefaultRule>)
    requires
        old(reader).wf(),
    ensures
        final(reader).wf(),
        final(reader).bytes() == old(reader).bytes(),
        step_agrees(
            r,
            final(reader).at(),
            spec_default_items(old(reader).bytes(), old(reader).at(), version, Seq::empty()),
            |x: DefaultRule| default_rule_view(x),
        ),
{
    let ghost s = reader.bytes();
    let ghost whole = spec_default_items(s, reader.at(), version, Seq::empty());
    let mut items: Vec<RuleItem> = Vec::new();
    assert(items_view(items@) =~= Seq::<ItemView>::empty());
    loop
        invariant_except_break
            whole == spec_default_items(s, reader.at(), version, items_view(items@)),
        invariant
            reader.wf(),
            reader.bytes() == s,
            s == old(reader).bytes(),
            whole == spec_default_items(s, old(reader).at(), version, Seq::empty()),
        ensures
            whole == match spec_bool(s, reader.at()) {
                Err(f) => Err(f),
                Ok((invert, p)) => Ok((RuleView::Default(items_view(items@), invert), p)),
            },
        decreases s.len() - reader.at(),
    {
        let item_type = match reader.read_u8() {
            Ok(t) => t,
            Err(e) => {
                return Err(Failure::Error(e));
            },
        };
        if item_type == ITEM_FINAL {
            break;
        }
        let ghost p = reader.at();
        let item = match read_item(reader, item_type, version) {
            Ok(i) => i,
            Err(f) => {
                return Err(f);
            },
        };
        proof {
            lemma_item_advances(s, p, item_type, version);
            lemma_items_view_push(items@, item);
        }
        items.push(item);
    }
    let invert = match reader.read_bool() {
        Ok(b) => b,
        Err(e) => {
            return Err(Failure::Error(e));
        },
    };
    Ok(DefaultRule { items, invert })
}

/// Reads a logical rule: its mode, its sub-rules and its invert flag.
fn read_logical_rule(reader: &mut Reader<'_>, version: u8) -> (r: Step<LogicalRule>)
    requires
        old(reader).wf(),
    ensures
        final(reader).wf(),
        final(reader).bytes() == old(reader).bytes(),
        step_agrees(
            r,
            final(reader).at(),
            spec_logical(old(reader).bytes(), old(reader).at(), version),
            |x: LogicalRule| logical_rule_view(x),
        ),
    decreases old(reader).bytes().len() - old(reader).at(),
{
    let ghost s = reader.bytes();
    let ghost start = reader.at();
    let mode_byte = match reader.read_u8() {
        Ok(v) => v,
        Err(e) => {
            return Err(Failure::Error(e));
        },
    };
    let mode = if mode_byte == 0 {
        LogicalMode::And
    } else if mode_byte == 1 {
        LogicalMode::Or
    } else {
        return Err(Failure::Error(Error::InvalidLogicalMode(mode_byte)));
    };
    let ghost p1 = reader.at();
    let count = match reader.read_count() {
        Ok(v) => v,
        Err(e) => {
            return Err(Failure::Error(e));
        },
    };
    proof {
        lemma_uvarint_advances(s, p1);
    }
    let ghost whole = spec_rules(s, reader.at(), version, count as nat, Seq::empty());
    let mut rules: Vec<Rule> = Vec::with_capacity(count);
    assert(rules_view(rules@) =~= Seq::<RuleView>::empty());
    let mut i: usize = 0;
    while i < count
        invariant
            reader.wf(),
            reader.bytes() == s,
            s == old(reader).bytes(),
            start == old(reader).at(),
            start < reader.at() <= s.len(),
            i <= count,
            whole == spec_rules(s, reader.at(), version, (count - i) as nat, rules_view(rules@)),
            spec_logical(s, start, version) == match whole {
                Err(f) => Err(f),
                Ok((rv, p3)) => match spec_bool(s, p3) {
                    Err(f) => Err(f),
                    Ok((invert, p4)) => Ok((RuleView::Logical(mode, rv, invert), p4)),
                },
            },
        decreases count - i,
    {
        let ghost p = reader.at();
        let rule = match read_rule(reader, version) {
            Ok(r) => r,
            Err(f) => {
                return Err(f);
            },
        };
        proof {
            lemma_rule_advances(s, p, version);
            lemma_rules_view_push(rules@, rule);
        }
        rules.push(rule);
        i = i + 1;
    }
    let invert = match reader.read_bool() {
        Ok(b) => b,
        Err(e) => {
            return Err(Failure::Error(e));
        },
    };
    Ok(LogicalRule { mode, rules, invert })
}

/// Reads a rule: its type byte, then a default or a logical rule.
fn read_rule(reader: &mut Reader<'_>, version: u8) -> (r: Step<Rule>)
    requires
        old(reader).wf(),
    ensures
        final(reader).wf(),
        final(reader).bytes() == old(reader).bytes(),
        step_agrees(
            r,
            final(reader).at(),
            spec_rule(old(reader).bytes(), old(reader).at(), version),
            |x: Rule| rule_view(x),
        ),
    decreases old(reader).bytes().len() - old(reader).at(),
{
    let rule_type = match reader.read_u8() {
        Ok(t) => t,
        Err(e) => {
            return Err(Failure::Error(e));
        },
    };
    if rule_type == RULE_DEFAULT {
        match read_default_rule(reader, version) {
            Ok(d) => Ok(Rule::Default(d)),
            Err(f) => Err(f),
        }
    } else if rule_type == RULE_LOGICAL {
        match read_logical_rule(reader, version) {
            Ok(l) => Ok(Rule::Logical(l)),
            Err(f) => Err(f),
        }
    } else {
        Err(Failure::Error(Error::InvalidRuleType(rule_type)))
    }
}


// ------------------------------------------------------------------------
// The payloads of interface-address items (types 21 and 22), which no item
// reader calls.
// ------------------------------------------------------------------------

/// `n` more interface entries: a key byte, a count of prefixes, the prefixes.
pub open spec fn spec_interfaces(
    s: Seq<u8>,
    pos: int,
    n: nat,
    acc: Seq<(u8, Seq<IpRange>)>,
) -> Parsed<Seq<(u8, Seq<IpRange>)>>
    decreases n,
{
    if n == 0 {
        Ok((acc, pos))
    } else {
        match spec_u8(s, pos) {
            Err(f) => Err(f),
            Ok((key, p)) => match spec_count(s, p, Error::Invalid("too many prefixes")) {
                Err(f) => Err(f),
                Ok((m, p2)) => match spec_ip_ranges(s, p2, m as nat, Seq::empty()) {
                    Err(f) => Err(f),
                    Ok((ranges, p3)) => spec_interfaces(s, p3, (n - 1) as nat, acc.push((key, ranges))),
                },
            },
        }
    }
}

/// A prefix: its first and its last address.
fn read_prefix(reader: &mut Reader<'_>) -> (r: Result<IpRange>)
    requires
        old(reader).wf(),
    ensures
        final(reader).wf(),
        final(reader).bytes() == old(reader).bytes(),
        read_agrees(r, final(reader).at(), spec_prefix(old(reader).bytes(), old(reader).at()), |x: IpRange| x),
{
    let from = match read_ip(reader) {
        Ok(v) => v,
        Err(e) => {
            return Err(e);
        },
    };
    let to = match read_ip(reader) {
        Ok(v) => v,
        Err(e) => {
            return Err(e);
        },
    };
    Ok(IpRange { from, to })
}

/// `count` more prefixes.
fn read_prefixes(reader: &mut Reader<'_>, count: u64) -> (r: Result<Vec<IpRange>>)
    requires
        old(reader).wf(),
        count <= usize::MAX,
    ensures
        final(reader).wf(),
        final(reader).bytes() == old(reader).bytes(),
        read_agrees(
            r,
            final(reader).at(),
            spec_ip_ranges(old(reader).bytes(), old(reader).at(), count as nat, Seq::empty()),
            |x: Vec<IpRange>| x@,
        ),
{
    let ghost s = reader.bytes();
    let ghost whole = spec_ip_ranges(s, reader.at(), count as nat, Seq::empty());
    let mut result: Vec<IpRange> = Vec::with_capacity(count as usize);
    let mut i: u64 = 0;
    while i < count
        invariant
            reader.wf(),
            reader.bytes() == s,
            s == old(reader).bytes(),
            i <= count,
            whole == spec_ip_ranges(s, old(reader).at(), count as nat, Seq::empty()),
            whole == spec_ip_ranges(s, reader.at(), (count - i) as nat, result@),
        decreases count - i,
    {
        let ghost p = reader.at();
        let prefix = match read_prefix(reader) {
            Ok(v) => v,
            Err(e) => {
                return Err(e);
            },
        };
        result.push(prefix);
        i = i + 1;
    }
    Ok(result)
}

/// The prefixes of the default interface: a count, then the prefixes.
fn read_default_interface_address(reader: &mut Reader<'_>) -> (r: Result<Vec<IpRange>>)
    requires
        old(reader).wf(),
    ensures
        final(reader).wf(),
        final(reader).bytes() == old(reader).bytes(),
        read_agrees(
            r,
            final(reader).at(),
            match spec_count(old(reader).bytes(), old(reader).at(), Error::Invalid("too many prefixes")) {
                Err(f) => Err(f),
                Ok((n, p)) => spec_ip_ranges(old(reader).bytes(), p, n as nat, Seq::empty()),
            },
            |x: Vec<IpRange>| x@,
        ),
{
    let count = match reader.read_uvarint() {
        Ok(v) => v,
        Err(e) => {
            return Err(e);
        },
    };
    if count > usize::MAX as u64 {
        return Err(Error::Invalid("too many prefixes"));
    }
    read_prefixes(reader, count)
}

/// The prefixes of each network interface: a count of interfaces, then for
/// each its key byte, a count of prefixes and the prefixes.
fn read_network_interface_address(reader: &mut Reader<'_>) -> (r: Result<Vec<(u8, Vec<IpRange>)>>)
    requires
        old(reader).wf(),
    ensures
        final(reader).wf(),
        final(reader).bytes() == old(reader).bytes(),
        read_agrees(
            r,
            final(reader).at(),
            match spec_count(
                old(reader).bytes(),
                old(reader).at(),
                Error::Invalid("too many interface addresses"),
            ) {
                Err(f) => Err(f),
                Ok((n, p)) => spec_interfaces(old(reader).bytes(), p, n as nat, Seq::empty()),
            },
            |x: Vec<(u8, Vec<IpRange>)>| interfaces_view(x@),
        ),
{
    let ghost s = reader.bytes();
    let size = match reader.read_uvarint() {
        Ok(v) => v,
        Err(e) => {
            return Err(e);
        },
    };
    if size > usize::MAX as u64 {
        return Err(Error::Invalid("too many interface addresses"));
    }
    let ghost whole = spec_interfaces(s, reader.at(), size as nat, Seq::empty());
    let mut result: Vec<(u8, Vec<IpRange>)> = Vec::with_capacity(size as usize);
    assert(interfaces_view(result@) =~= Seq::<(u8, Seq<IpRange>)>::empty());
    let mut i: u64 = 0;
    while i < size
        invariant
            reader.wf(),
            reader.bytes() == s,
            s == old(reader).bytes(),
            i <= size,
            whole == match spec_count(s, old(reader).at(), Error::Invalid("too many interface addresses")) {
                Err(f) => Err(f),
                Ok((n, p)) => spec_interfaces(s, p, n as nat, Seq::empty()),
            },
            whole == spec_interfaces(s, reader.at(), (size - i) as nat, interfaces_view(result@)),
        decreases size - i,
    {
        let key = match reader.read_u8() {
            Ok(v) => v,
            Err(e) => {
                return Err(e);
            },
        };
        let prefix_count = match reader.read_uvarint() {
            Ok(v) => v,
            Err(e) => {
                return Err(e);
            },
        };
        if prefix_count > usize::MAX as u64 {
            return Err(Error::Invalid("too many prefixes"));
        }
        let prefixes = match read_prefixes(reader, prefix_count) {
            Ok(v) => v,
            Err(e) => {
                return Err(e);
            },
        };
        proof {
            assert(interfaces_view(result@.push((key, prefixes))) =~= interfaces_view(result@).push(
                (key, prefixes@),
            ));
        }
        result.push((key, prefixes));
        i = i + 1;
    }
    Ok(result)
}

/// The key and the ranges of each interface entry.
pub open spec fn interfaces_view(v: Seq<(u8, Vec<IpRange>)>) -> Seq<(u8, Seq<IpRange>)> {
    v.map_values(|e: (u8, Vec<IpRange>)| (e.0, e.1@))
}

// ------------------------------------------------------------------------
// Rule sets.
// ------------------------------------------------------------------------

/// What reading the rule-set file `data` gives: the error of its header, an
/// I/O error where its body does not inflate, or the rule set or error that
/// its inflated body gives.
pub open spec fn parse_result(data: Seq<u8>, r: Result<Srs>) -> bool {
    match spec_header(data) {
        Err(e) => r matches Err(x) && x == e,
        Ok(version) => match zlib_inflated(data.subrange(4, data.len() as int)) {
            None => r matches Err(Error::Io(_)),
            Some(body) => match spec_payload(body, version) {
                Ok(rules) => r matches Ok(srs) && srs@ == (SrsView { version: version, rules: rules }),
                Err(f) => r matches Err(x) && f == Failure::Error(x),
            },
        },
    }
}

impl Srs {
    /// Reads the inflated body of a rule set of file version `version`: a
    /// count of rules, the rules, and nothing after them.
    pub fn parse_inflated(version: u8, body: &[u8]) -> (r: Step<Srs>)
        ensures
            match spec_payload(body@, version) {
                Ok(rules) => r matches Ok(srs) && srs@ == (SrsView { version: version, rules: rules }),
                Err(f) => r matches Err(g) && g == f,
            },
    {
        let mut reader = Reader::new(body);
        let ghost s = body@;
        let rule_count = match reader.read_count() {
            Ok(v) => v,
            Err(e) => {
                return Err(Failure::Error(e));
            },
        };
        let ghost whole = spec_rules(s, reader.at(), version, rule_count as nat, Seq::empty());
        let mut rules: Vec<Rule> = Vec::with_capacity(rule_count);
        assert(rules_view(rules@) =~= Seq::<RuleView>::empty());
        let mut i: usize = 0;
        while i < rule_count
            invariant
                reader.wf(),
                reader.bytes() == s,
                s == body@,
                i <= rule_count,
                whole == spec_rules(s, reader.at(), version, (rule_count - i) as nat, rules_view(rules@)),
                spec_payload(s, version) == match whole {
                    Err((f, _)) => Err(f),
                    Ok((rv, p)) => if p != s.len() {
                        Err(Failure::Error(Error::TrailingData))
                    } else {
                        Ok(rv)
                    },
                },
            decreases rule_count - i,
        {
            let ghost p = reader.at();
            let rule = match read_rule(&mut reader, version) {
                Ok(r) => r,
                Err(f) => {
                    return Err(f);
                },
            };
            proof {
                lemma_rule_advances(s, p, version);
                lemma_rules_view_push(rules@, rule);
            }
            rules.push(rule);
            i = i + 1;
        }
        if reader.remaining().len() != 0 {
            return Err(Failure::Error(Error::TrailingData));
        }
        Ok(Srs { version, rules })
    }

    /// The file version and the zlib body of a rule-set file, after checking
    /// its magic and its version.
    fn read_header(data: &[u8]) -> (r: Result<(u8, &[u8])>)
        ensures
            match spec_header(data@) {
                Err(e) => r matches Err(x) && x == e,
                Ok(version) => r matches Ok((v, body)) && v == version && body@ == data@.subrange(
                    4,
                    data@.len() as int,
                ),
            },
    {
        let mut reader = Reader::new(data);
        let magic = match reader.read_array() {
            Ok(m) => m,
            Err(e) => {
                return Err(e);
            },
        };
        if magic[0] != 0x53 || magic[1] != 0x52 || magic[2] != 0x53 {
            assert(data@.subrange(0, 3) != seq![0x53u8, 0x52u8, 0x53u8]) by {
                if data@.subrange(0, 3) == seq![0x53u8, 0x52u8, 0x53u8] {
                    assert(data@.subrange(0, 3)[0] == 0x53u8);
                    assert(data@.subrange(0, 3)[1] == 0x52u8);
                    assert(data@.subrange(0, 3)[2] == 0x53u8);
                }
            }
            return Err(Error::InvalidMagic([magic[0], magic[1], magic[2]]));
        }
        assert(data@.subrange(0, 3) =~= seq![0x53u8, 0x52u8, 0x53u8]);
        let version = match reader.read_u8() {
            Ok(v) => v,
            Err(e) => {
                return Err(e);
            },
        };
        if !(1 <= version && version <= 4) {
            return Err(Error::UnsupportedVersion(version));
        }
        Ok((version, reader.remaining()))
    }

    /// Reads a rule-set file: the magic `SRS`, a version from 1 to 4, then a
    /// zlib stream holding the rules.
    pub fn parse(data: &[u8]) -> (r: Result<Srs>)
        requires
            parse_defined(data@),
        ensures
            parse_result(data@, r),
    {
        let (version, compressed) = match Self::read_header(data) {
            Ok(h) => h,
            Err(e) => {
                return Err(e);
            },
        };
        let decompressed = match inflate(compressed) {
            Ok(d) => d,
            Err(e) => {
                return Err(Error::from(e));
            },
        };
        match Self::parse_inflated(version, &decompressed) {
            Ok(srs) => Ok(srs),
            Err(Failure::Error(e)) => Err(e),
            Err(f) => {
                // Excluded by `parse_defined`.
                proof {
                    assert(false);
                }
                Err(Error::Invalid("unsupported rule item"))
            },
        }
    }

    /// `parse`, where the file does not reach an item that has no reader
    /// (interface addresses) or a trie too large for its indexes; `None`
    /// where it does. The file is read once to decide, then by `parse`.
    pub fn try_parse(data: &[u8]) -> (r: Option<Result<Srs>>)
        ensures
            r is None <==> !parse_defined(data@),
            r matches Some(x) ==> parse_result(data@, x),
    {
        let (version, compressed) = match Self::read_header(data) {
            Ok(h) => h,
            Err(e) => {
                return Some(Err(e));
            },
        };
        let decompressed = match inflate(compressed) {
            Ok(d) => d,
            Err(e) => {
                return Some(Err(Error::from(e)));
            },
        };
        match Self::parse_inflated(version, &decompressed) {
            Ok(_) => Some(Self::parse(data)),
            Err(Failure::Error(_)) => Some(Self::parse(data)),
            Err(_) => None,
        }
    }
}


// ------------------------------------------------------------------------
// Domain matching.
// ------------------------------------------------------------------------

/// The label that ends a key under which every longer domain matches.
pub const PREFIX_LABEL: u8 = 0x0d;
/// The label that ends a key under which the domain and its subdomains match.
pub const ROOT_LABEL: u8 = 0x0a;

/// The bitmap position of the first child of node `node`: one past the set
/// bit that closes the node before it (`None` where there is no such bit).
pub open spec fn children_start(bm: Seq<u64>, node: int) -> Option<int> {
    match select_at(bm, node - 1) {
        Some(p) => Some(p + 1),
        None => None,
    }
}

/// Whether the trie `t` matches key bytes `key[i..]`, the walk standing at
/// node `node` and at bitmap position `pos` among its children. Each child
/// is tried in turn: a clear bitmap bit is an edge, its label at `pos - node`;
/// a set bit closes the node. A prefix label matches whatever follows; a root
/// label matches where the key goes on with `.` and the node below it is a
/// leaf; an equal label descends. Once the key is used up, see `trie_tail`.
pub open spec fn trie_scan(t: SuccinctView, key: Seq<u8>, i: int, node: int, pos: int) -> bool
    decreases key.len() - i, t.labels.len() - (pos - node),
{
    if i >= key.len() {
        trie_tail(t, node, pos)
    } else if bit_at(t.label_bitmap, pos) != 0 {
        false
    } else if pos < node || pos - node >= t.labels.len() {
        false
    } else {
        let label = t.labels[pos - node];
        let c = key[i];
        let child = count_zeros_at(t.label_bitmap, pos + 1);
        if label == PREFIX_LABEL {
            true
        } else if label == ROOT_LABEL && c == 0x2e && bit_at(t.leaves, child) != 0 {
            true
        } else if label == c {
            match children_start(t.label_bitmap, child) {
                None => false,
                Some(p) => trie_scan(t, key, i + 1, child, p),
            }
        } else {
            trie_scan(t, key, i, node, pos + 1)
        }
    }
}

/// Whether the walk matches at node `node` once the key is used up: the node
/// is a leaf, or one of its edges from `pos` on carries a prefix or a root
/// label.
pub open spec fn trie_tail(t: SuccinctView, node: int, pos: int) -> bool {
    bit_at(t.leaves, node) != 0 || trie_tail_scan(t, node, pos)
}

/// Whether one of the edges of node `node`, from position `pos` on, carries
/// a prefix or a root label.
pub open spec fn trie_tail_scan(t: SuccinctView, node: int, pos: int) -> bool
    decreases t.labels.len() - (pos - node),
{
    if bit_at(t.label_bitmap, pos) != 0 {
        false
    } else if pos < node || pos - node >= t.labels.len() {
        false
    } else if t.labels[pos - node] == PREFIX_LABEL || t.labels[pos - node] == ROOT_LABEL {
        true
    } else {
        trie_tail_scan(t, node, pos + 1)
    }
}

/// A set bit with `k` set bits before it lies at position `k` or later.
proof fn lemma_select_at_least(bm: Seq<u64>, k: int)
    requires
        64 * bm.len() <= usize::MAX,
    ensures
        select_at(bm, k) matches Some(p) ==> is_select(bm, p as int, k) && k <= p < 64 * bm.len(),
{
    if 0 <= k < total_ones(bm) {
        lemma_ones_before_total(bm, 64 * bm.len() as int);
        lemma_select_exists(bm, k);
        let p = choose|p: int| is_select(bm, p, k);
        lemma_ones_before_monotone(bm, 0, p);
        assert(p as usize == p);
    }
}

/// Below the total count, every count of set bits is reached at a set bit.
pub proof fn lemma_select_exists(bm: Seq<u64>, k: int)
    requires
        0 <= k < total_ones(bm),
    ensures
        exists|p: int| is_select(bm, p, k),
{
    lemma_ones_before_total(bm, 64 * bm.len() as int);
    lemma_select_exists_below(bm, k, 64 * bm.len() as int);
}

proof fn lemma_select_exists_below(bm: Seq<u64>, k: int, n: int)
    requires
        0 <= k < ones_before(bm, n),
        n <= 64 * bm.len(),
    ensures
        exists|p: int| is_select(bm, p, k),
    decreases n,
{
    if n > 0 {
        lemma_bit_value_at(bm, n - 1);
        if ones_before(bm, n - 1) == k {
            assert(bit_at(bm, n - 1) == 1);
            assert(is_select(bm, n - 1, k));
        } else {
            lemma_select_exists_below(bm, k, n - 1);
        }
    }
}

/// A bit of a bitmap is 0 or 1.
proof fn lemma_bit_value_at(bm: Seq<u64>, i: int)
    ensures
        bit_at(bm, i) == 0 || bit_at(bm, i) == 1,
{
    if 0 <= i < 64 * bm.len() {
        lemma_bit_value(bm[i / 64], i % 64);
    }
}

/// One past a clear bit, there is at least one clear bit, and no more clear
/// bits than positions.
proof fn lemma_child_positive(bm: Seq<u64>, pos: int)
    requires
        0 <= pos,
        bit_at(bm, pos) == 0,
    ensures
        1 <= count_zeros_at(bm, pos + 1) <= pos + 1,
{
    lemma_ones_before_monotone(bm, 0, pos);
    lemma_ones_before_monotone(bm, pos, pos + 1);
}

impl DomainMatcher {
    /// The indexes of the trie agree with its bitmap.
    #[verifier::type_invariant]
    spec fn inv(&self) -> bool {
        self.set.indexed()
    }

    /// Whether the reversed domain `key` is matched: it is a key of the set,
    /// or a key ends in a prefix label where the walk reaches it, or in a root
    /// label where the key goes on with `.` or ends.
    pub fn has(&self, key: &[u8]) -> (r: bool)
        ensures
            r == trie_scan(self@, key@, 0, 0, 0),
    {
        proof {
            use_type_invariant(self);
        }
        let ghost t = self@;
        let ghost bm = t.label_bitmap;
        let mut node_id: usize = 0;
        let mut bm_idx: usize = 0;
        let mut i: usize = 0;
        while i < key.len()
            invariant
                self.set.indexed(),
                t == self@,
                bm == t.label_bitmap,
                trie_fits(bm, t.labels),
                i <= key.len(),
                node_id <= bm_idx <= 64 * bm.len(),
                trie_scan(t, key@, 0, 0, 0) == trie_scan(t, key@, i as int, node_id as int, bm_idx as int),
            decreases key.len() - i,
        {
            let current_char = key[i];
            loop
                invariant
                    self.set.indexed(),
                    t == self@,
                    bm == t.label_bitmap,
                    trie_fits(bm, t.labels),
                    i < key.len(),
                    current_char == key@[i as int],
                    node_id <= bm_idx <= 64 * bm.len() + t.labels.len(),
                    node_id <= 64 * bm.len(),
                    trie_scan(t, key@, 0, 0, 0) == trie_scan(t, key@, i as int, node_id as int, bm_idx as int),
                ensures
                    bit_at(bm, bm_idx as int) == 0,
                    bm_idx - node_id < t.labels.len(),
                    t.labels[bm_idx - node_id] == current_char,
                    current_char != PREFIX_LABEL,
                decreases t.labels.len() - (bm_idx - node_id),
            {
                if get_bit(&self.set.label_bitmap, bm_idx) != 0 {
                    return false;
                }
                let label_index = bm_idx - node_id;
                if label_index >= self.set.labels.len() {
                    return false;
                }
                let next_label = self.set.labels[label_index];
                if next_label == PREFIX_LABEL {
                    return true;
                }
                if next_label == ROOT_LABEL {
                    let next_node_id = self.set.count_zeros(bm_idx + 1);
                    let has_next = get_bit(&self.set.leaves, next_node_id) != 0;
                    if current_char == 0x2e && has_next {
                        return true;
                    }
                }
                if next_label == current_char {
                    break;
                }
                bm_idx = bm_idx + 1;
            }
            proof {
                lemma_child_positive(bm, bm_idx as int);
            }
            node_id = self.set.count_zeros(bm_idx + 1);
            proof {
                lemma_select_at_least(bm, node_id - 1);
            }
            bm_idx = match self.set.select_ith_one(node_id - 1) {
                Some(v) => v + 1,
                None => {
                    return false;
                },
            };
            i = i + 1;
        }
        if get_bit(&self.set.leaves, node_id) != 0 {
            return true;
        }
        loop
            invariant
                self.set.indexed(),
                t == self@,
                bm == t.label_bitmap,
                trie_fits(bm, t.labels),
                node_id <= bm_idx <= 64 * bm.len() + t.labels.len(),
                node_id <= 64 * bm.len(),
                trie_scan(t, key@, 0, 0, 0) == trie_tail_scan(t, node_id as int, bm_idx as int),
            decreases t.labels.len() - (bm_idx - node_id),
        {
            if get_bit(&self.set.label_bitmap, bm_idx) != 0 {
                return false;
            }
            let label_index = bm_idx - node_id;
            if label_index >= self.set.labels.len() {
                return false;
            }
            let next_label = self.set.labels[label_index];
            if next_label == PREFIX_LABEL || next_label == ROOT_LABEL {
                return true;
            }
            bm_idx = bm_idx + 1;
        }
    }

    /// Whether `domain` is matched: its characters reversed, as UTF-8, are
    /// looked up with `has`.
    pub fn matches(&self, domain: &str) -> (r: bool)
        ensures
            r == trie_scan(self@, encode_utf8(domain@.reverse()), 0, 0, 0),
    {
        let key = reverse_domain(domain);
        self.has(&key)
    }
}


/// The text of an error other than an I/O error.
pub open spec fn message_text(e: Error) -> Seq<char> {
    match e {
        Error::Io(_) => "I/O error: "@,
        Error::Invalid(msg) => "invalid SRS: "@ + msg@,
        Error::InvalidMagic(m) => "invalid SRS magic: ["@ + hex_text(m[0]) + ", "@ + hex_text(m[1]) + ", "@
            + hex_text(m[2]) + "]"@,
        Error::UnsupportedVersion(v) => "unsupported SRS version: "@ + decimal_text(v as nat),
        Error::UnexpectedEof => "unexpected end of SRS data"@,
        Error::InvalidVarint => "invalid uvarint"@,
        Error::InvalidUtf8 => "invalid UTF-8"@,
        Error::InvalidRuleType(v) => "invalid rule type: "@ + decimal_text(v as nat),
        Error::InvalidItemType(v) => "invalid item type: "@ + decimal_text(v as nat),
        Error::UnsupportedItemType { item_type, srs_version } => "unsupported item type "@ + decimal_text(
            item_type as nat,
        ) + " for SRS version "@ + decimal_text(srs_version as nat),
        Error::InvalidIpSetVersion(v) => "invalid IPSet version: "@ + decimal_text(v as nat),
        Error::InvalidIpLength(len) => "invalid IP address length: "@ + decimal_text(len as nat),
        Error::InvalidLogicalMode(v) => "invalid logical rule mode: "@ + decimal_text(v as nat),
        Error::TrailingData => "trailing data after SRS"@,
        Error::UnsupportedDomainVersion(v) => "unsupported domain matcher version: "@ + decimal_text(
            v as nat,
        ),
        Error::UnsupportedSuccinctSetVersion(v) => "unsupported succinct set version: "@ + decimal_text(
            v as nat,
        ),
    }
}

impl Error {
    /// The text of the error, as its `Display` shows it. The text of an I/O
    /// error comes from the system and follows the prefix.
    pub fn message(&self) -> (r: String)
        ensures
            match self {
                Error::Io(_) => r@.len() >= "I/O error: "@.len() && r@.subrange(0, "I/O error: "@.len() as int)
                    == "I/O error: "@,
                _ => r@ == message_text(*self),
            },
    {
        let mut out: Vec<char> = Vec::new();
        match self {
            Error::Io(e) => {
                push_str(&mut out, "I/O error: ");
                let text = io_error_text(e);
                push_str(&mut out, text.as_str());
            },
            Error::Invalid(msg) => {
                push_str(&mut out, "invalid SRS: ");
                push_str(&mut out, msg);
            },
            Error::InvalidMagic(m) => {
                push_str(&mut out, "invalid SRS magic: [");
                push_hex(&mut out, m[0]);
                push_str(&mut out, ", ");
                push_hex(&mut out, m[1]);
                push_str(&mut out, ", ");
                push_hex(&mut out, m[2]);
                push_str(&mut out, "]");
            },
            Error::UnsupportedVersion(v) => {
                push_str(&mut out, "unsupported SRS version: ");
                push_decimal(&mut out, *v as u64);
            },
            Error::UnexpectedEof => {
                push_str(&mut out, "unexpected end of SRS data");
            },
            Error::InvalidVarint => {
                push_str(&mut out, "invalid uvarint");
            },
            Error::InvalidUtf8 => {
                push_str(&mut out, "invalid UTF-8");
            },
            Error::InvalidRuleType(v) => {
                push_str(&mut out, "invalid rule type: ");
                push_decimal(&mut out, *v as u64);
            },
            Error::InvalidItemType(v) => {
                push_str(&mut out, "invalid item type: ");
                push_decimal(&mut out, *v as u64);
            },
            Error::UnsupportedItemType { item_type, srs_version } => {
                push_str(&mut out, "unsupported item type ");
                push_decimal(&mut out, *item_type as u64);
                push_str(&mut out, " for SRS version ");
                push_decimal(&mut out, *srs_version as u64);
            },
            Error::InvalidIpSetVersion(v) => {
                push_str(&mut out, "invalid IPSet version: ");
                push_decimal(&mut out, *v as u64);
            },
            Error::InvalidIpLength(len) => {
                push_str(&mut out, "invalid IP address length: ");
                push_decimal(&mut out, *len as u64);
            },
            Error::InvalidLogicalMode(v) => {
                push_str(&mut out, "invalid logical rule mode: ");
                push_decimal(&mut out, *v as u64);
            },
            Error::TrailingData => {
                push_str(&mut out, "trailing data after SRS");
            },
            Error::UnsupportedDomainVersion(v) => {
                push_str(&mut out, "unsupported domain matcher version: ");
                push_decimal(&mut out, *v as u64);
            },
            Error::UnsupportedSuccinctSetVersion(v) => {
                push_str(&mut out, "unsupported succinct set version: ");
                push_decimal(&mut out, *v as u64);
            },
        }
        proof {
            if let Error::InvalidMagic(m) = self {
                assert(out@ =~= message_text(*self));
            }
            if let Error::UnsupportedItemType { item_type, srs_version } = self {
                assert(out@ =~= message_text(*self));
            }
        }
        string_from_chars(&out)
    }
}

// ------------------------------------------------------------------------
// IP sets are sorted.
// ------------------------------------------------------------------------

/// In ranges sorted by their first address, the ranges that start no later
/// than `ip` come first.
proof fn lemma_count_sorted(v: Seq<IpRange>, ip: IpAddress)
    requires
        sorted_by_start(v),
    ensures
        count_starting_by(v, ip) <= v.len(),
        forall|j: int| 0 <= j < count_starting_by(v, ip) ==> ip_le(#[trigger] v[j].from, ip),
        forall|j: int| count_starting_by(v, ip) <= j < v.len() ==> !ip_le(#[trigger] v[j].from, ip),
    decreases v.len(),
{
    if v.len() > 0 {
        let w = v.drop_last();
        assert(sorted_by_start(w)) by {
            assert forall|a: int, b: int| 0 <= a < b < w.len() implies ip_le(#[trigger] w[a].from, #[trigger] w[b].from) by {
                assert(ip_le(v[a].from, v[b].from));
            }
        }
        lemma_count_sorted(w, ip);
        let c = count_starting_by(w, ip);
        if ip_le(v.last().from, ip) {
            assert forall|j: int| 0 <= j < v.len() implies ip_le(#[trigger] v[j].from, ip) by {
                if j < v.len() - 1 {
                    assert(ip_le(v[j].from, v[v.len() - 1].from));
                }
            }
            assert forall|j: int| 0 <= j < c implies w[j].from == v[j].from by {}
        } else {
            assert forall|j: int| c <= j < v.len() - 1 implies !ip_le(#[trigger] v[j].from, ip) by {
                assert(w[j] == v[j]);
            }
            assert forall|j: int| 0 <= j < c implies ip_le(#[trigger] v[j].from, ip) by {
                assert(w[j] == v[j]);
            }
        }
    }
}

/// Sorting ranges by their first address leaves each range no later than
/// the ones after it, and keeps the same ranges, each as often.
pub proof fn lemma_sort_by_start(rs: Seq<IpRange>)
    ensures
        sorted_by_start(sort_by_start(rs)),
        sort_by_start(rs).to_multiset() == rs.to_multiset(),
        sort_by_start(rs).len() == rs.len(),
    decreases rs.len(),
{
    broadcast use vstd::seq_lib::group_to_multiset_ensures;

    if rs.len() > 0 {
        let w = rs.drop_last();
        let x = rs.last();
        lemma_sort_by_start(w);
        let v = sort_by_start(w);
        lemma_count_sorted(v, x.from);
        let c = count_starting_by(v, x.from) as int;
        let r = v.insert(c, x);
        assert(r == sort_by_start(rs));
        assert forall|a: int, b: int| 0 <= a < b < r.len() implies ip_le(#[trigger] r[a].from, #[trigger] r[b].from) by {
            if b < c {
                assert(r[a] == v[a] && r[b] == v[b]);
            } else if b == c {
                assert(r[a] == v[a] && r[b] == x);
            } else if a < c {
                assert(r[a] == v[a] && r[b] == v[b - 1]);
                assert(ip_le(v[a].from, x.from));
                assert(!ip_le(v[b - 1].from, x.from));
            } else if a == c {
                assert(r[a] == x && r[b] == v[b - 1]);
                assert(!ip_le(v[b - 1].from, x.from));
            } else {
                assert(r[a] == v[a - 1] && r[b] == v[b - 1]);
            }
        }
        vstd::seq_lib::to_multiset_insert(v, c, x);
        assert(rs =~= w.push(x));
    }
}

/// The ranges of every IP set that is read are sorted by their first
/// address, so that `IpSet::contains` answers exactly for it.
pub proof fn lemma_read_ip_set_sorted(s: Seq<u8>, pos: int)
    ensures
        spec_ip_set(s, pos) matches Ok((ranges, p)) ==> sorted_by_start(ranges),
{
    if let Ok((version, p)) = spec_u8(s, pos) {
        if let Ok((count, p2)) = spec_u64_be(s, p) {
            if let Ok((ranges, p3)) = spec_ip_ranges(s, p2, count as nat, Seq::empty()) {
                lemma_sort_by_start(ranges);
            }
        }
    }
}

} // verus!
