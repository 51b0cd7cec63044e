//! GeoIP rule sets: an SRS file whose single default rule lists IP CIDR
//! ranges.
use vstd::prelude::*;
use vstd::std_specs::convert::FromSpecImpl;
use crate::ip::IpAddress;
use crate::wire::{
    be_value, lemma_be_value_bound, take_be, take_bytes, take_u8, take_uvarint, Cursor,
    VarintError, be_u128, lemma_uvarint_advances, uvarint_stop,
};
use crate::zlib::{inflate, io_error_text, zlib_inflated};
use crate::text::{decimal_text, push_decimal, push_str, string_from_chars};

verus! {

/// Rule type of a default rule.
pub const RULE_TYPE_DEFAULT: u8 = 0;

/// Rule item that holds IP CIDR ranges.
pub const RULE_ITEM_IP_CIDR: u8 = 6;

/// Rule item that ends a default rule.
pub const RULE_ITEM_FINAL: u8 = 0xff;

/// The only IP set layout that is understood.
pub const IPSET_VERSION: u8 = 1;

/// Why a GeoIP rule set could not be read.
#[derive(Debug)]
pub enum Error {
    Io(std::io::Error),
    Invalid(&'static str),
    UnsupportedVersion(u8),
    UnsupportedRuleType(u8),
    UnsupportedRuleItem(u8),
}

impl From<std::io::Error> for Error {
    fn from(err: std::io::Error) -> (r: Self) {
        Error::Io(err)
    }
}

impl FromSpecImpl<std::io::Error> for Error {
    open spec fn obeys_from_spec() -> bool {
        true
    }

    open spec fn from_spec(err: std::io::Error) -> Self {
        Error::Io(err)
    }
}

pub type Result<T> = core::result::Result<T, Error>;

/// How reading can stop short of a value: with an error, or at a length
/// whose end position would overflow `usize`, where the reader has no
/// answer.
#[derive(Debug)]
pub enum Failure {
    Error(Error),
    Overflow,
}

/// What a read that can stop short of a value gives.
pub type Step<T> = core::result::Result<T, Failure>;

/// An inclusive range of IPv4 addresses.
#[derive(Debug, Clone, Copy)]
pub struct Ipv4Range {
    pub from: u32,
    pub to: u32,
}

/// An inclusive range of IPv6 addresses.
#[derive(Debug, Clone, Copy)]
pub struct Ipv6Range {
    pub from: u128,
    pub to: u128,
}

/// The ranges of a GeoIP rule set, IPv4 and IPv6, in file order.
#[derive(Debug)]
pub struct SrsGeoIp {
    ipv4: Vec<Ipv4Range>,
    ipv6: Vec<Ipv6Range>,
}

/// What a GeoIP rule set holds: its IPv4 ranges and its IPv6 ranges.
pub struct GeoIpView {
    pub ipv4: Seq<Ipv4Range>,
    pub ipv6: Seq<Ipv6Range>,
}

impl View for SrsGeoIp {
    type V = GeoIpView;

    closed spec fn view(&self) -> GeoIpView {
        GeoIpView { ipv4: self.ipv4@, ipv6: self.ipv6@ }
    }
}

// ------------------------------------------------------------------------
// The format, as spec functions over the bytes.
// ------------------------------------------------------------------------

/// The error for data that ends too early.
pub open spec fn eof() -> Error {
    Error::Invalid("unexpected EOF")
}

/// A byte at `pos`.
pub open spec fn spec_u8(s: Seq<u8>, pos: int) -> core::result::Result<(u8, int), (Error, int)> {
    match take_u8(s, pos) {
        Some(x) => Ok(x),
        None => Err((eof(), pos)),
    }
}

/// An unsigned LEB128 integer at `pos`.
pub open spec fn spec_uvarint(s: Seq<u8>, pos: int) -> core::result::Result<(u64, int), (Error, int)> {
    match take_uvarint(s, pos) {
        Ok(x) => Ok(x),
        Err(VarintError::Eof) => Err((eof(), uvarint_stop(s, pos, VarintError::Eof))),
        Err(VarintError::TooLong) => Err(
            (Error::Invalid("invalid uvarint"), uvarint_stop(s, pos, VarintError::TooLong)),
        ),
    }
}

/// Reading the shortest LEB128 encoding of a value (seven-bit groups, lowest
/// first, the high bit set on all but the last byte) gives the value back,
/// and the reader stops just after the encoding, whatever follows it.
pub proof fn lemma_uvarint_reads_back(v: u64, s: Seq<u8>, pos: int)
    requires
        0 <= pos,
        pos + crate::wire::uvarint_encoding(v as nat).len() <= s.len(),
        s.subrange(pos, pos + crate::wire::uvarint_encoding(v as nat).len()) == crate::wire::uvarint_encoding(
            v as nat,
        ),
    ensures
        spec_uvarint(s, pos) == Ok::<(u64, int), (Error, int)>((v, pos + crate::wire::uvarint_encoding(v as nat).len())),
{
    crate::wire::lemma_uvarint_round_trip(v, s, pos);
}

/// A length-prefixed byte string at `pos`. A length whose end position
/// does not fit in `usize` stops the reading with `Failure::Overflow`.
pub open spec fn spec_bytes(s: Seq<u8>, pos: int) -> core::result::Result<(Seq<u8>, int), (Failure, int)> {
    match spec_uvarint(s, pos) {
        Err((e, q)) => Err((Failure::Error(e), q)),
        Ok((len, p)) => if len > usize::MAX {
            Err((Failure::Error(Error::Invalid("byte array is too large")), p))
        } else if p + len > usize::MAX {
            Err((Failure::Overflow, p))
        } else {
            match take_bytes(s, p, len as int) {
                Some(x) => Ok(x),
                None => Err((Failure::Error(eof()), p)),
            }
        },
    }
}

/// `n` more address ranges from `pos` on, appended to those read so far.
pub open spec fn spec_ranges(
    s: Seq<u8>,
    pos: int,
    n: nat,
    v4: Seq<Ipv4Range>,
    v6: Seq<Ipv6Range>,
) -> core::result::Result<(Seq<Ipv4Range>, Seq<Ipv6Range>, int), (Failure, int)>
    decreases n,
{
    if n == 0 {
        Ok((v4, v6, pos))
    } else {
        match spec_bytes(s, pos) {
            Err(e) => Err(e),
            Ok((from, p1)) => match spec_bytes(s, p1) {
                Err(e) => Err(e),
                Ok((to, p2)) => if from.len() == 4 && to.len() == 4 {
                    spec_ranges(
                        s,
                        p2,
                        (n - 1) as nat,
                        v4.push(Ipv4Range { from: be_value(from) as u32, to: be_value(to) as u32 }),
                        v6,
                    )
                } else if from.len() == 16 && to.len() == 16 {
                    spec_ranges(
                        s,
                        p2,
                        (n - 1) as nat,
                        v4,
                        v6.push(Ipv6Range { from: be_value(from) as u128, to: be_value(to) as u128 }),
                    )
                } else {
                    Err(
                        (
                            Failure::Error(Error::Invalid("IP range must contain either 4 or 16 byte addresses")),
                            p2,
                        ),
                    )
                },
            },
        }
    }
}

/// An IP set at `pos`: its version byte, its range count as a big-endian
/// `u64`, then the ranges.
pub open spec fn spec_ipset(s: Seq<u8>, pos: int) -> core::result::Result<
    (Seq<Ipv4Range>, Seq<Ipv6Range>, int),
    (Failure, int),
> {
    match spec_u8(s, pos) {
        Err((e, q)) => Err((Failure::Error(e), q)),
        Ok((version, p)) => if version != IPSET_VERSION {
            Err((Failure::Error(Error::Invalid("unsupported IPSet version")), p))
        } else {
            match take_be(s, p, 8) {
                None => Err((Failure::Error(eof()), p)),
                Some((count, p2)) => if count > usize::MAX {
                    Err((Failure::Error(Error::Invalid("IPSet is too large")), p2))
                } else {
                    spec_ranges(s, p2, count, Seq::empty(), Seq::empty())
                },
            }
        },
    }
}

/// Rule items from `pos` on, up to and including the final item, with the
/// ranges read so far.
#[verifier::opaque]
pub open spec fn spec_items(
    s: Seq<u8>,
    pos: int,
    v4: Seq<Ipv4Range>,
    v6: Seq<Ipv6Range>,
) -> core::result::Result<GeoIpView, Failure>
    decreases s.len() - pos,
{
    match spec_u8(s, pos) {
        Err((e, _)) => Err(Failure::Error(e)),
        Ok((item, p)) => if item == RULE_ITEM_IP_CIDR {
            match spec_ipset(s, p) {
                Err((f, _)) => Err(f),
                Ok((a, b, p2)) => {
                    proof {
                        lemma_ipset_advances(s, p);
                    }
                    spec_items(s, p2, v4 + a, v6 + b)
                },
            }
        } else if item == RULE_ITEM_FINAL {
            match spec_u8(s, p) {
                Err((e, _)) => Err(Failure::Error(e)),
                Ok((invert, _)) => if invert != 0 {
                    Err(Failure::Error(Error::Invalid("inverted GeoIP rule is not supported")))
                } else {
                    Ok(GeoIpView { ipv4: v4, ipv6: v6 })
                },
            }
        } else {
            Err(Failure::Error(Error::UnsupportedRuleItem(item)))
        },
    }
}

/// The inflated body of a GeoIP rule set: exactly one rule, a default rule,
/// whose items are IP CIDR sets followed by a final item that is not
/// inverted. Bytes after the final item are not looked at.
pub open spec fn spec_payload(s: Seq<u8>) -> core::result::Result<GeoIpView, Failure> {
    match spec_uvarint(s, 0) {
        Err((e, _)) => Err(Failure::Error(e)),
        Ok((count, p)) => if count != 1 {
            Err(Failure::Error(Error::Invalid("expected exactly one rule in GeoIP SRS")))
        } else {
            match spec_u8(s, p) {
                Err((e, _)) => Err(Failure::Error(e)),
                Ok((rule_type, p2)) => if rule_type != RULE_TYPE_DEFAULT {
                    Err(Failure::Error(Error::UnsupportedRuleType(rule_type)))
                } else {
                    spec_items(s, p2, Seq::empty(), Seq::empty())
                },
            }
        },
    }
}

/// The bytes `S`, `R`, `S` that open every rule-set file.
pub open spec fn is_srs_magic(b: Seq<u8>) -> bool {
    b == seq![0x53u8, 0x52u8, 0x53u8]
}

/// The file header: the magic, then a version byte that must not be zero.
/// The zlib body starts after these four bytes.
pub open spec fn spec_header(data: Seq<u8>) -> core::result::Result<u8, Error> {
    if data.len() < 3 {
        Err(eof())
    } else if !is_srs_magic(data.subrange(0, 3)) {
        Err(Error::Invalid("invalid SRS magic"))
    } else if data.len() < 4 {
        Err(eof())
    } else if data[3] == 0 {
        Err(Error::Invalid("invalid SRS version"))
    } else {
        Ok(data[3])
    }
}

/// The outcome of a parse, taken by view.
pub open spec fn outcome(r: Step<SrsGeoIp>) -> core::result::Result<GeoIpView, Failure> {
    match r {
        Ok(g) => Ok(g@),
        Err(f) => Err(f),
    }
}

/// A file whose reading ends with a value or an error, not at a byte string
/// whose end position would overflow.
pub open spec fn parse_defined(data: Seq<u8>) -> bool {
    spec_header(data) is Ok ==> (zlib_inflated(data.subrange(4, data.len() as int)) matches Some(
        body,
    ) ==> !(spec_payload(body) matches Err(Failure::Overflow)))
}

/// What reading the file `data` gives: the error of its header, an I/O error
/// where its body does not inflate, or the ranges or error of its body.
pub open spec fn parse_result(data: Seq<u8>, r: Result<SrsGeoIp>) -> bool {
    match spec_header(data) {
        Err(e) => r matches Err(x) && x == e,
        Ok(_) => match zlib_inflated(data.subrange(4, data.len() as int)) {
            None => r matches Err(Error::Io(_)),
            Some(body) => match spec_payload(body) {
                Ok(v) => r matches Ok(g) && g@ == v,
                Err(f) => r matches Err(x) && f == Failure::Error(x),
            },
        },
    }
}

/// Each range of `ranges` is non-empty and lies wholly below the ranges
/// that follow it.
pub open spec fn v4_ordered(ranges: Seq<Ipv4Range>) -> bool {
    &&& forall|i: int| 0 <= i < ranges.len() ==> #[trigger] ranges[i].from <= ranges[i].to
    &&& forall|i: int, j: int| 0 <= i < j < ranges.len() ==> #[trigger] ranges[i].to < #[trigger] ranges[j].from
}

/// Each range of `ranges` is non-empty and lies wholly below the ranges
/// that follow it.
pub open spec fn v6_ordered(ranges: Seq<Ipv6Range>) -> bool {
    &&& forall|i: int| 0 <= i < ranges.len() ==> #[trigger] ranges[i].from <= ranges[i].to
    &&& forall|i: int, j: int| 0 <= i < j < ranges.len() ==> #[trigger] ranges[i].to < #[trigger] ranges[j].from
}

/// Some range of `ranges` holds `v`.
pub open spec fn v4_covered(ranges: Seq<Ipv4Range>, v: u32) -> bool {
    exists|i: int| 0 <= i < ranges.len() && #[trigger] ranges[i].from <= v <= ranges[i].to
}

/// Some range of `ranges` holds `v`.
pub open spec fn v6_covered(ranges: Seq<Ipv6Range>, v: u128) -> bool {
    exists|i: int| 0 <= i < ranges.len() && #[trigger] ranges[i].from <= v <= ranges[i].to
}

// ------------------------------------------------------------------------
// Lemmas on the format.
// ------------------------------------------------------------------------

pub proof fn lemma_bytes_advances(s: Seq<u8>, pos: int)
    ensures
        spec_bytes(s, pos) matches Ok((b, p)) ==> pos < p <= s.len() && p == pos + (p - pos),
{
    lemma_uvarint_advances(s, pos);
}

pub proof fn lemma_ranges_advances(
    s: Seq<u8>,
    pos: int,
    n: nat,
    v4: Seq<Ipv4Range>,
    v6: Seq<Ipv6Range>,
)
    requires
        pos <= s.len(),
    ensures
        spec_ranges(s, pos, n, v4, v6) matches Ok((a, b, p)) ==> pos <= p <= s.len(),
    decreases n,
{
    if n > 0 {
        lemma_bytes_advances(s, pos);
        if let Ok((from, p1)) = spec_bytes(s, pos) {
            lemma_bytes_advances(s, p1);
            if let Ok((to, p2)) = spec_bytes(s, p1) {
                if from.len() == 4 && to.len() == 4 {
                    lemma_ranges_advances(
                        s,
                        p2,
                        (n - 1) as nat,
                        v4.push(Ipv4Range { from: be_value(from) as u32, to: be_value(to) as u32 }),
                        v6,
                    );
                } else if from.len() == 16 && to.len() == 16 {
                    lemma_ranges_advances(
                        s,
                        p2,
                        (n - 1) as nat,
                        v4,
                        v6.push(Ipv6Range { from: be_value(from) as u128, to: be_value(to) as u128 }),
                    );
                }
            }
        }
    }
}

pub proof fn lemma_ipset_advances(s: Seq<u8>, pos: int)
    ensures
        spec_ipset(s, pos) matches Ok((a, b, p)) ==> pos < p <= s.len(),
{
    if let Ok((version, p)) = spec_u8(s, pos) {
        if let Some((count, p2)) = take_be(s, p, 8) {
            if count <= usize::MAX {
                lemma_ranges_advances(s, p2, count, Seq::empty(), Seq::empty());
            }
        }
    }
}

/// One step of `spec_items`: the item at `pos` decides the outcome or the
/// position from which the items go on.
pub proof fn lemma_items_step(s: Seq<u8>, pos: int, v4: Seq<Ipv4Range>, v6: Seq<Ipv6Range>)
    ensures
        match spec_u8(s, pos) {
            Err((e, _)) => spec_items(s, pos, v4, v6) == Err::<GeoIpView, Failure>(Failure::Error(e)),
            Ok((item, p)) => if item == RULE_ITEM_IP_CIDR {
                match spec_ipset(s, p) {
                    Err((f, _)) => spec_items(s, pos, v4, v6) == Err::<GeoIpView, Failure>(f),
                    Ok((a, b, p2)) => pos < p2 && spec_items(s, pos, v4, v6) == spec_items(
                        s,
                        p2,
                        v4 + a,
                        v6 + b,
                    ),
                }
            } else if item == RULE_ITEM_FINAL {
                match spec_u8(s, p) {
                    Err((e, _)) => spec_items(s, pos, v4, v6) == Err::<GeoIpView, Failure>(Failure::Error(e)),
                    Ok((invert, _)) => spec_items(s, pos, v4, v6) == if invert != 0 {
                        Err::<GeoIpView, Failure>(
                            Failure::Error(Error::Invalid("inverted GeoIP rule is not supported")),
                        )
                    } else {
                        Ok(GeoIpView { ipv4: v4, ipv6: v6 })
                    },
                }
            } else {
                spec_items(s, pos, v4, v6) == Err::<GeoIpView, Failure>(
                    Failure::Error(Error::UnsupportedRuleItem(item)),
                )
            },
        },
{
    reveal(spec_items);
    if let Ok((item, p)) = spec_u8(s, pos) {
        lemma_ipset_advances(s, p);
    }
}

/// The range count that the IP set at `pos` declares: the big-endian `u64`
/// after its version byte.
pub open spec fn ipset_count(s: Seq<u8>, pos: int) -> nat {
    match take_be(s, pos + 1, 8) {
        Some((count, _)) => count,
        None => 0,
    }
}

/// The ranges that the IP CIDR items from `pos` on declare, summed over the
/// items up to the final item.
pub open spec fn declared_ranges(s: Seq<u8>, pos: int) -> nat
    decreases s.len() - pos,
{
    match spec_u8(s, pos) {
        Err(_) => 0,
        Ok((item, p)) => if item == RULE_ITEM_IP_CIDR {
            match spec_ipset(s, p) {
                Err(_) => 0,
                Ok((a, b, p2)) => {
                    proof {
                        lemma_ipset_advances(s, p);
                    }
                    ipset_count(s, p) + declared_ranges(s, p2)
                },
            }
        } else {
            0
        },
    }
}

/// The ranges that the IP CIDR items of a GeoIP body declare, summed.
pub open spec fn payload_declared_ranges(s: Seq<u8>) -> nat {
    match spec_uvarint(s, 0) {
        Ok((_, p)) => declared_ranges(s, p + 1),
        Err(_) => 0,
    }
}

/// Reading `n` ranges adds `n` ranges, of one family or the other.
proof fn lemma_ranges_count(s: Seq<u8>, pos: int, n: nat, v4: Seq<Ipv4Range>, v6: Seq<Ipv6Range>)
    ensures
        spec_ranges(s, pos, n, v4, v6) matches Ok((a, b, p)) ==> a.len() + b.len() == v4.len() + v6.len()
            + n,
    decreases n,
{
    if n > 0 {
        if let Ok((from, p1)) = spec_bytes(s, pos) {
            if let Ok((to, p2)) = spec_bytes(s, p1) {
                if from.len() == 4 && to.len() == 4 {
                    lemma_ranges_count(
                        s,
                        p2,
                        (n - 1) as nat,
                        v4.push(Ipv4Range { from: be_value(from) as u32, to: be_value(to) as u32 }),
                        v6,
                    );
                } else if from.len() == 16 && to.len() == 16 {
                    lemma_ranges_count(
                        s,
                        p2,
                        (n - 1) as nat,
                        v4,
                        v6.push(Ipv6Range { from: be_value(from) as u128, to: be_value(to) as u128 }),
                    );
                }
            }
        }
    }
}

/// An IP set holds as many ranges as it declares.
proof fn lemma_ipset_count(s: Seq<u8>, pos: int)
    ensures
        spec_ipset(s, pos) matches Ok((a, b, p)) ==> a.len() + b.len() == ipset_count(s, pos),
{
    if let Ok((version, p)) = spec_u8(s, pos) {
        if let Some((count, p2)) = take_be(s, p, 8) {
            if count <= usize::MAX {
                lemma_ranges_count(s, p2, count, Seq::empty(), Seq::empty());
            }
        }
    }
}

/// The items from `pos` on add as many ranges as their IP sets declare.
proof fn lemma_items_count(s: Seq<u8>, pos: int, v4: Seq<Ipv4Range>, v6: Seq<Ipv6Range>)
    ensures
        spec_items(s, pos, v4, v6) matches Ok(g) ==> g.ipv4.len() + g.ipv6.len() == v4.len() + v6.len()
            + declared_ranges(s, pos),
    decreases s.len() - pos,
{
    lemma_items_step(s, pos, v4, v6);
    if let Ok((item, p)) = spec_u8(s, pos) {
        if item == RULE_ITEM_IP_CIDR {
            lemma_ipset_count(s, p);
            lemma_ipset_advances(s, p);
            if let Ok((a, b, p2)) = spec_ipset(s, p) {
                lemma_items_count(s, p2, v4 + a, v6 + b);
            }
        }
    }
}

/// The IPv4 and the IPv6 ranges of a GeoIP body are together as many as the
/// range counts of its IP CIDR items add up to: `ipv4_ranges` and
/// `ipv6_ranges` of what `parse` gives sum to that number.
pub proof fn lemma_range_counts(s: Seq<u8>)
    ensures
        spec_payload(s) matches Ok(g) ==> g.ipv4.len() + g.ipv6.len() == payload_declared_ranges(s),
{
    if let Ok((count, p)) = spec_uvarint(s, 0) {
        if count == 1 {
            if let Ok((rule_type, p2)) = spec_u8(s, p) {
                if rule_type == RULE_TYPE_DEFAULT {
                    lemma_items_count(s, p2, Seq::empty(), Seq::empty());
                }
            }
        }
    }
}

/// What `parse` reads from a file holds, IPv4 and IPv6 together, as many
/// ranges as the IP CIDR items of its inflated body declare: this is the sum
/// of `ipv4_ranges` and `ipv6_ranges`.
pub proof fn lemma_parsed_range_counts(data: Seq<u8>, g: SrsGeoIp)
    requires
        parse_result(data, Ok(g)),
    ensures
        zlib_inflated(data.subrange(4, data.len() as int)) matches Some(body) && g@.ipv4.len()
            + g@.ipv6.len() == payload_declared_ranges(body),
{
    let body = zlib_inflated(data.subrange(4, data.len() as int))->0;
    lemma_range_counts(body);
}

/// At `q` the data hold a `w`-byte address: a LEB128 length `w`, then `w`
/// bytes; its big-endian value, and the position after it.
pub open spec fn address_at(s: Seq<u8>, q: int, w: nat) -> Option<(nat, int)> {
    match take_uvarint(s, q) {
        Ok((len, a)) => if len == w && 0 <= a && a + w <= s.len() {
            Some((be_value(s.subrange(a, a + w)), a + w))
        } else {
            None
        },
        Err(_) => None,
    }
}

/// At `q` the data hold a pair of `w`-byte addresses whose big-endian
/// values are `from` and then `to`.
pub open spec fn pair_at(s: Seq<u8>, q: int, w: nat, from: nat, to: nat) -> bool {
    match address_at(s, q, w) {
        Some((f, e)) => match address_at(s, e, w) {
            Some((t, _)) => f == from && t == to,
            None => false,
        },
        None => false,
    }
}

/// Between `lo` and `hi` the data hold a pair of `w`-byte addresses whose
/// values are `from` and then `to`.
pub open spec fn pair_in(s: Seq<u8>, lo: int, hi: int, w: nat, from: nat, to: nat) -> bool {
    exists|q: int| lo <= q < hi && #[trigger] pair_at(s, q, w, from, to)
}

/// A pair found in a smaller span lies in a larger one.
proof fn lemma_pair_in_widen(s: Seq<u8>, lo: int, hi: int, lo2: int, w: nat, from: nat, to: nat)
    requires
        pair_in(s, lo, hi, w, from, to),
        lo2 <= lo,
    ensures
        pair_in(s, lo2, hi, w, from, to),
{
    let q = choose|q: int| lo <= q < hi && #[trigger] pair_at(s, q, w, from, to);
    assert(lo2 <= q < hi && pair_at(s, q, w, from, to));
}

/// The IPv4 ranges `a` from index `k` on each come from a pair of 4-byte
/// addresses between `lo` and `hi`.
pub open spec fn v4_from_bytes(s: Seq<u8>, a: Seq<Ipv4Range>, k: int, lo: int, hi: int) -> bool {
    forall|j: int| k <= j < a.len() ==> pair_in(s, lo, hi, 4, #[trigger] a[j].from as nat, a[j].to as nat)
}

/// The IPv6 ranges `b` from index `k` on each come from a pair of 16-byte
/// addresses between `lo` and `hi`.
pub open spec fn v6_from_bytes(s: Seq<u8>, b: Seq<Ipv6Range>, k: int, lo: int, hi: int) -> bool {
    forall|j: int| k <= j < b.len() ==> pair_in(s, lo, hi, 16, #[trigger] b[j].from as nat, b[j].to as nat)
}

/// Each range read from `pos` on comes from the bytes: an IPv4 range from a
/// pair of 4-byte addresses, first address first, and an IPv6 range from a
/// pair of 16-byte addresses, first address first, each pair among the
/// bytes read; and the ranges read before stay at the front.
#[verifier::spinoff_prover]
proof fn lemma_ranges_bytes(s: Seq<u8>, pos: int, n: nat, v4: Seq<Ipv4Range>, v6: Seq<Ipv6Range>)
    requires
        0 <= pos,
    ensures
        spec_ranges(s, pos, n, v4, v6) matches Ok((a, b, p)) ==> (v4.len() <= a.len() && a.subrange(
            0,
            v4.len() as int,
        ) == v4 && v6.len() <= b.len() && b.subrange(0, v6.len() as int) == v6 && v4_from_bytes(
            s,
            a,
            v4.len() as int,
            pos,
            p,
        ) && v6_from_bytes(s, b, v6.len() as int, pos, p)),
    decreases n,
{
    if n == 0 {
        assert(v4.subrange(0, v4.len() as int) =~= v4);
        assert(v6.subrange(0, v6.len() as int) =~= v6);
    } else {
        lemma_bytes_advances(s, pos);
        if let Ok((from, p1)) = spec_bytes(s, pos) {
            lemma_bytes_advances(s, p1);
            if let Ok((to, p2)) = spec_bytes(s, p1) {
                lemma_uvarint_advances(s, pos);
                lemma_uvarint_advances(s, p1);
                lemma_be_value_bound(from);
                lemma_be_value_bound(to);
                vstd::arithmetic::power2::lemma2_to64();
                vstd::arithmetic::power2::lemma2_to64_rest();
                if from.len() == 4 && to.len() == 4 {
                    let r = Ipv4Range { from: be_value(from) as u32, to: be_value(to) as u32 };
                    let nv4 = v4.push(r);
                    lemma_ranges_bytes(s, p2, (n - 1) as nat, nv4, v6);
                    assert(spec_ranges(s, pos, n, v4, v6) == spec_ranges(s, p2, (n - 1) as nat, nv4, v6));
                    if let Ok((a, b, p)) = spec_ranges(s, pos, n, v4, v6) {
                        lemma_ranges_advances(s, p2, (n - 1) as nat, nv4, v6);
                        assert(a.subrange(0, v4.len() as int) =~= nv4.subrange(0, v4.len() as int));
                        assert(nv4.subrange(0, v4.len() as int) =~= v4);
                        assert(a[v4.len() as int] == nv4.subrange(0, nv4.len() as int)[v4.len() as int]);
                        assert(pair_at(s, pos, 4, r.from as nat, r.to as nat));
                        assert(pair_in(s, pos, p, 4, r.from as nat, r.to as nat));
                        assert forall|j: int| v4.len() <= j < a.len() implies pair_in(
                            s,
                            pos,
                            p,
                            4,
                            #[trigger] a[j].from as nat,
                            a[j].to as nat,
                        ) by {
                            if j == v4.len() {
                                assert(a[j] == r);
                            } else {
                                lemma_pair_in_widen(s, p2, p, pos, 4, a[j].from as nat, a[j].to as nat);
                            }
                        }
                        assert forall|j: int| v6.len() <= j < b.len() implies pair_in(
                            s,
                            pos,
                            p,
                            16,
                            #[trigger] b[j].from as nat,
                            b[j].to as nat,
                        ) by {
                            lemma_pair_in_widen(s, p2, p, pos, 16, b[j].from as nat, b[j].to as nat);
                        }
                    }
                } else if from.len() == 16 && to.len() == 16 {
                    vstd::arithmetic::power2::lemma_pow2_adds(64, 64);
                    assert(vstd::arithmetic::power2::pow2(128) == 0x1_0000_0000_0000_0000_0000_0000_0000_0000int);
                    let r = Ipv6Range { from: be_value(from) as u128, to: be_value(to) as u128 };
                    assert(r.from as nat == be_value(from));
                    assert(r.to as nat == be_value(to));
                    let nv6 = v6.push(r);
                    lemma_ranges_bytes(s, p2, (n - 1) as nat, v4, nv6);
                    assert(spec_ranges(s, pos, n, v4, v6) == spec_ranges(s, p2, (n - 1) as nat, v4, nv6));
                    if let Ok((a, b, p)) = spec_ranges(s, pos, n, v4, v6) {
                        lemma_ranges_advances(s, p2, (n - 1) as nat, v4, nv6);
                        assert(b.subrange(0, v6.len() as int) =~= nv6.subrange(0, v6.len() as int));
                        assert(nv6.subrange(0, v6.len() as int) =~= v6);
                        assert(b[v6.len() as int] == nv6.subrange(0, nv6.len() as int)[v6.len() as int]);
                        assert(pair_at(s, pos, 16, r.from as nat, r.to as nat));
                        assert(pair_in(s, pos, p, 16, r.from as nat, r.to as nat));
                        assert forall|j: int| v4.len() <= j < a.len() implies pair_in(
                            s,
                            pos,
                            p,
                            4,
                            #[trigger] a[j].from as nat,
                            a[j].to as nat,
                        ) by {
                            lemma_pair_in_widen(s, p2, p, pos, 4, a[j].from as nat, a[j].to as nat);
                        }
                        assert forall|j: int| v6.len() <= j < b.len() implies pair_in(
                            s,
                            pos,
                            p,
                            16,
                            #[trigger] b[j].from as nat,
                            b[j].to as nat,
                        ) by {
                            if j == v6.len() {
                                assert(b[j] == r);
                            } else {
                                lemma_pair_in_widen(s, p2, p, pos, 16, b[j].from as nat, b[j].to as nat);
                            }
                        }
                    }
                }
            }
        }
    }
}

/// Every range of an IP set comes from the bytes of the set: an IPv4 range
/// has as first address the big-endian value of the first of a pair of
/// 4-byte addresses in the set and as last address that of the second; an
/// IPv6 range likewise for a pair of 16-byte addresses.
pub proof fn lemma_ipset_bytes(s: Seq<u8>, pos: int)
    requires
        0 <= pos,
    ensures
        spec_ipset(s, pos) matches Ok((a, b, p)) ==> (v4_from_bytes(s, a, 0, pos, p) && v6_from_bytes(
            s,
            b,
            0,
            pos,
            p,
        )),
{
    if let Ok((version, p)) = spec_u8(s, pos) {
        if let Some((count, p2)) = take_be(s, p, 8) {
            if count <= usize::MAX && version == IPSET_VERSION {
                lemma_ranges_bytes(s, p2, count, Seq::empty(), Seq::empty());
                assert(spec_ipset(s, pos) == spec_ranges(s, p2, count, Seq::empty(), Seq::empty()));
                if let Ok((a, b, p3)) = spec_ipset(s, pos) {
                    assert forall|j: int| 0 <= j < a.len() implies pair_in(
                        s,
                        pos,
                        p3,
                        4,
                        #[trigger] a[j].from as nat,
                        a[j].to as nat,
                    ) by {
                        lemma_pair_in_widen(s, p2, p3, pos, 4, a[j].from as nat, a[j].to as nat);
                    }
                    assert forall|j: int| 0 <= j < b.len() implies pair_in(
                        s,
                        pos,
                        p3,
                        16,
                        #[trigger] b[j].from as nat,
                        b[j].to as nat,
                    ) by {
                        lemma_pair_in_widen(s, p2, p3, pos, 16, b[j].from as nat, b[j].to as nat);
                    }
                }
            }
        }
    }
}

/// The items of a GeoIP rule are IP CIDR items (type 6) up to a final item
/// (type `0xff`); the final item must be followed by an invert byte 0, and
/// there the ranges read so far are the result.
pub proof fn lemma_items_bytes(s: Seq<u8>, pos: int, v4: Seq<Ipv4Range>, v6: Seq<Ipv6Range>)
    ensures
        spec_items(s, pos, v4, v6) matches Ok(g) ==> (0 <= pos < s.len() && (s[pos] == 6 || s[pos] == 0xff)
            && (s[pos] == 0xff ==> (pos + 1 < s.len() && s[pos + 1] == 0 && g.ipv4 == v4 && g.ipv6 == v6))),
{
    lemma_items_step(s, pos, v4, v6);
}

/// A GeoIP body that reads holds exactly one rule, and that rule is a
/// default rule: a rule count 1, then the rule type byte 0.
pub proof fn lemma_payload_bytes(s: Seq<u8>)
    ensures
        spec_payload(s) is Ok ==> (take_uvarint(s, 0) matches Ok((count, p)) && count == 1 && 0 <= p
            < s.len() && s[p] == 0),
{
}

/// An IPv4 address is covered exactly when some range has it between its
/// first and its last address, both included.
pub proof fn lemma_v4_covered_fields(ranges: Seq<Ipv4Range>, v: u32)
    ensures
        v4_covered(ranges, v) <==> exists|i: int|
            0 <= i < ranges.len() && #[trigger] ranges[i].from <= v && v <= ranges[i].to,
{
}

/// An IPv6 address is covered exactly when some range has it between its
/// first and its last address, both included.
pub proof fn lemma_v6_covered_fields(ranges: Seq<Ipv6Range>, v: u128)
    ensures
        v6_covered(ranges, v) <==> exists|i: int|
            0 <= i < ranges.len() && #[trigger] ranges[i].from <= v && v <= ranges[i].to,
{
}

/// A file gets past the header check exactly when it starts with the magic
/// `SRS` and a version byte that is not zero; every such version is read.
pub proof fn lemma_header_accepts(data: Seq<u8>)
    ensures
        spec_header(data) is Ok <==> (data.len() >= 4 && data.subrange(0, 3) == seq![0x53u8, 0x52u8, 0x53u8]
            && data[3] != 0),
        spec_header(data) is Ok ==> spec_header(data) == Ok::<u8, Error>(data[3]),
{
}

// ------------------------------------------------------------------------
// Parsing.
// ------------------------------------------------------------------------

impl SrsGeoIp {
    /// The file version and the zlib body, after checking the magic and the
    /// version.
    fn read_header(data: &[u8]) -> (r: Result<&[u8]>)
        ensures
            match spec_header(data@) {
                Err(e) => r matches Err(x) && x == e,
                Ok(_) => r matches Ok(body) && body@ == data@.subrange(4, data@.len() as int),
            },
    {
        let mut reader = Reader::new(data);
        let magic = match reader.read_exact(3) {
            Ok(v) => v,
            Err(e) => {
                return Err(e);
            },
        };
        if !(magic.len() == 3 && magic[0] == 0x53 && magic[1] == 0x52 && magic[2] == 0x53) {
            assert(!is_srs_magic(data@.subrange(0, 3)));
            return Err(Error::Invalid("invalid SRS magic"));
        }
        assert(is_srs_magic(data@.subrange(0, 3))) by {
            assert(magic@ =~= seq![0x53u8, 0x52u8, 0x53u8]);
        }
        let version = match reader.read_u8() {
            Ok(v) => v,
            Err(e) => {
                return Err(e);
            },
        };
        if version == 0 {
            return Err(Error::Invalid("invalid SRS version"));
        }
        Ok(reader.remaining())
    }

    /// Parses a GeoIP rule set file: the header, then the zlib body.
    pub fn parse(data: &[u8]) -> (r: Result<Self>)
        requires
            parse_defined(data@),
        ensures
            parse_result(data@, r),
    {
        let compressed = match Self::read_header(data) {
            Ok(c) => c,
            Err(e) => {
                return Err(e);
            },
        };
        let decompressed = match inflate(compressed) {
            Ok(d) => d,
            Err(e) => {
                return Err(Error::Io(e));
            },
        };
        Self::parse_payload(decompressed.as_slice())
    }

    /// `parse`, where no byte string of the body has an end position that
    /// overflows `usize`; `None` where one does. The file is read once to
    /// decide, then by `parse`.
    pub fn try_parse(data: &[u8]) -> (r: Option<Result<Self>>)
        ensures
            r is None <==> !parse_defined(data@),
            r matches Some(x) ==> parse_result(data@, x),
    {
        let compressed = match Self::read_header(data) {
            Ok(c) => c,
            Err(e) => {
                return Some(Err(e));
            },
        };
        let decompressed = match inflate(compressed) {
            Ok(d) => d,
            Err(e) => {
                return Some(Err(Error::Io(e)));
            },
        };
        match Self::read_payload(decompressed.as_slice()) {
            Err(Failure::Overflow) => None,
            _ => Some(Self::parse(data)),
        }
    }

    /// Parses the inflated body of a GeoIP rule set, where no byte string of
    /// it has an end position that overflows `usize`.
    pub fn parse_payload(payload: &[u8]) -> (r: Result<Self>)
        requires
            !(spec_payload(payload@) matches Err(Failure::Overflow)),
        ensures
            match spec_payload(payload@) {
                Ok(v) => r matches Ok(g) && g@ == v,
                Err(f) => r matches Err(x) && f == Failure::Error(x),
            },
    {
        match Self::read_payload(payload) {
            Ok(g) => Ok(g),
            Err(Failure::Error(e)) => Err(e),
            Err(Failure::Overflow) => {
                // Excluded by the precondition.
                proof {
                    assert(false);
                }
                Err(Error::Invalid("byte array is too large"))
            },
        }
    }

    /// Reads the inflated body of a GeoIP rule set.
    fn read_payload(payload: &[u8]) -> (r: Step<Self>)
        ensures
            outcome(r) == spec_payload(payload@),
    {
        let ghost s = payload@;
        let mut reader = Reader::new(payload);
        let rule_count = match reader.read_uvarint() {
            Ok(v) => v,
            Err(e) => {
                return Err(Failure::Error(e));
            },
        };
        if rule_count != 1 {
            return Err(Failure::Error(Error::Invalid("expected exactly one rule in GeoIP SRS")));
        }
        let rule_type = match reader.read_u8() {
            Ok(v) => v,
            Err(e) => {
                return Err(Failure::Error(e));
            },
        };
        if rule_type != RULE_TYPE_DEFAULT {
            return Err(Failure::Error(Error::UnsupportedRuleType(rule_type)));
        }
        let mut result = SrsGeoIp { ipv4: Vec::new(), ipv6: Vec::new() };
        let ghost target = spec_payload(s);
        assert(target == spec_items(s, reader.cur.pos as int, result.ipv4@, result.ipv6@));
        assert(result@.ipv4 == result.ipv4@ && result@.ipv6 == result.ipv6@);
        loop
            invariant_except_break
                target == spec_items(s, reader.cur.pos as int, result.ipv4@, result.ipv6@),
            invariant
                reader.wf(),
                reader.cur.data@ == s,
                s == payload@,
                target == spec_payload(s),
            ensures
                target == Ok::<GeoIpView, Failure>(result@),
            decreases s.len() - reader.cur.pos,
        {
            let ghost pos = reader.cur.pos as int;
            let ghost v4_old = result.ipv4@;
            let ghost v6_old = result.ipv6@;
            proof {
                lemma_items_step(s, pos, v4_old, v6_old);
            }
            let item_type = match reader.read_u8() {
                Ok(v) => v,
                Err(e) => {
                    return Err(Failure::Error(e));
                },
            };
            if item_type == RULE_ITEM_IP_CIDR {
                let ipset = match read_ipset(&mut reader) {
                    Ok(v) => v,
                    Err(f) => {
                        return Err(f);
                    },
                };
                let mut v4 = ipset.ipv4;
                let mut v6 = ipset.ipv6;
                result.ipv4.append(&mut v4);
                result.ipv6.append(&mut v6);
            } else if item_type == RULE_ITEM_FINAL {
                let invert = match reader.read_u8() {
                    Ok(v) => v,
                    Err(e) => {
                        return Err(Failure::Error(e));
                    },
                };
                if invert != 0 {
                    return Err(Failure::Error(Error::Invalid("inverted GeoIP rule is not supported")));
                }
                assert(spec_items(s, pos, v4_old, v6_old) == Ok::<GeoIpView, Failure>(result@));
                break ;
            } else {
                return Err(Failure::Error(Error::UnsupportedRuleItem(item_type)));
            }
        }
        Ok(result)
    }

    /// Whether some range holds `ip`, found by binary search over the ranges
    /// of its family. A `true` answer always comes from a range that holds
    /// `ip`; where the ranges of that family are ordered, the answer is
    /// exact.
    pub fn contains(&self, ip: IpAddress) -> (r: bool)
        ensures
            match ip {
                IpAddress::V4(v) => (r ==> v4_covered(self@.ipv4, v)) && (v4_ordered(self@.ipv4) ==> (r
                    <==> v4_covered(self@.ipv4, v))),
                IpAddress::V6(v) => (r ==> v6_covered(self@.ipv6, v)) && (v6_ordered(self@.ipv6) ==> (r
                    <==> v6_covered(self@.ipv6, v))),
            },
    {
        match ip {
            IpAddress::V4(value) => search_v4(&self.ipv4, value),
            IpAddress::V6(value) => search_v6(&self.ipv6, value),
        }
    }

    /// The number of IPv4 ranges.
    pub fn ipv4_ranges(&self) -> (n: usize)
        ensures
            n == self@.ipv4.len(),
    {
        self.ipv4.len()
    }

    /// The number of IPv6 ranges.
    pub fn ipv6_ranges(&self) -> (n: usize)
        ensures
            n == self@.ipv6.len(),
    {
        self.ipv6.len()
    }
}

/// Binary search for a range that holds `value`.
fn search_v4(ranges: &Vec<Ipv4Range>, value: u32) -> (r: bool)
    ensures
        r ==> v4_covered(ranges@, value),
        v4_ordered(ranges@) ==> (r <==> v4_covered(ranges@, value)),
{
    let mut lo: usize = 0;
    let mut hi: usize = ranges.len();
    while lo < hi
        invariant
            lo <= hi <= ranges@.len(),
            v4_ordered(ranges@) ==> forall|k: int|
                0 <= k < ranges@.len() && #[trigger] ranges@[k].from <= value <= ranges@[k].to ==> lo
                    <= k < hi,
        decreases hi - lo,
    {
        let mid = lo + (hi - lo) / 2;
        let range = ranges[mid];
        if value < range.from {
            proof {
                if v4_ordered(ranges@) {
                    assert forall|k: int|
                        0 <= k < ranges@.len() && #[trigger] ranges@[k].from <= value <= ranges@[k].to
                        implies lo <= k < mid by {
                        if k > mid {
                            assert(ranges@[mid as int].to < ranges@[k].from);
                            assert(ranges@[mid as int].from <= ranges@[mid as int].to);
                        }
                    }
                }
            }
            hi = mid;
        } else if value > range.to {
            proof {
                if v4_ordered(ranges@) {
                    assert forall|k: int|
                        0 <= k < ranges@.len() && #[trigger] ranges@[k].from <= value <= ranges@[k].to
                        implies mid < k < hi by {
                        if k < mid {
                            assert(ranges@[k].to < ranges@[mid as int].from);
                            assert(ranges@[mid as int].from <= ranges@[mid as int].to);
                        }
                    }
                }
            }
            lo = mid + 1;
        } else {
            assert(ranges@[mid as int].from <= value <= ranges@[mid as int].to);
            return true;
        }
    }
    false
}

/// Binary search for a range that holds `value`.
fn search_v6(ranges: &Vec<Ipv6Range>, value: u128) -> (r: bool)
    ensures
        r ==> v6_covered(ranges@, value),
        v6_ordered(ranges@) ==> (r <==> v6_covered(ranges@, value)),
{
    let mut lo: usize = 0;
    let mut hi: usize = ranges.len();
    while lo < hi
        invariant
            lo <= hi <= ranges@.len(),
            v6_ordered(ranges@) ==> forall|k: int|
                0 <= k < ranges@.len() && #[trigger] ranges@[k].from <= value <= ranges@[k].to ==> lo
                    <= k < hi,
        decreases hi - lo,
    {
        let mid = lo + (hi - lo) / 2;
        let range = ranges[mid];
        if value < range.from {
            proof {
                if v6_ordered(ranges@) {
                    assert forall|k: int|
                        0 <= k < ranges@.len() && #[trigger] ranges@[k].from <= value <= ranges@[k].to
                        implies lo <= k < mid by {
                        if k > mid {
                            assert(ranges@[mid as int].to < ranges@[k].from);
                            assert(ranges@[mid as int].from <= ranges@[mid as int].to);
                        }
                    }
                }
            }
            hi = mid;
        } else if value > range.to {
            proof {
                if v6_ordered(ranges@) {
                    assert forall|k: int|
                        0 <= k < ranges@.len() && #[trigger] ranges@[k].from <= value <= ranges@[k].to
                        implies mid < k < hi by {
                        if k < mid {
                            assert(ranges@[k].to < ranges@[mid as int].from);
                            assert(ranges@[mid as int].from <= ranges@[mid as int].to);
                        }
                    }
                }
            }
            lo = mid + 1;
        } else {
            assert(ranges@[mid as int].from <= value <= ranges@[mid as int].to);
            return true;
        }
    }
    false
}

/// The ranges of one IP set.
struct IpSet {
    ipv4: Vec<Ipv4Range>,
    ipv6: Vec<Ipv6Range>,
}

/// Reads an IP set; the ranges keep their order within each family.
fn read_ipset(reader: &mut Reader<'_>) -> (r: Step<IpSet>)
    requires
        old(reader).wf(),
    ensures
        final(reader).wf(),
        final(reader).cur.data == old(reader).cur.data,
        match spec_ipset(old(reader).cur.data@, old(reader).cur.pos as int) {
            Ok((a, b, p)) => r matches Ok(set) && set.ipv4@ == a && set.ipv6@ == b
                && final(reader).cur.pos == p,
            Err((f, q)) => r matches Err(x) && x == f && final(reader).cur.pos == q,
        },
{
    let ghost s = reader.cur.data@;
    let version = match reader.read_u8() {
        Ok(v) => v,
        Err(e) => {
            return Err(Failure::Error(e));
        },
    };
    if version != IPSET_VERSION {
        return Err(Failure::Error(Error::Invalid("unsupported IPSet version")));
    }
    let count = match reader.read_u64_be() {
        Ok(v) => v,
        Err(e) => {
            return Err(Failure::Error(e));
        },
    };
    if count > usize::MAX as u64 {
        return Err(Failure::Error(Error::Invalid("IPSet is too large")));
    }
    let count = count as usize;
    let mut ipv4: Vec<Ipv4Range> = Vec::new();
    let mut ipv6: Vec<Ipv6Range> = Vec::new();
    ipv4.reserve(count);
    ipv6.reserve(count);
    let ghost start = reader.cur.pos as int;
    let mut i: usize = 0;
    while i < count
        invariant
            reader.wf(),
            reader.cur.data@ == s,
            reader.cur.data == old(reader).cur.data,
            i <= count,
            spec_ipset(s, old(reader).cur.pos as int) == spec_ranges(
                s,
                reader.cur.pos as int,
                (count - i) as nat,
                ipv4@,
                ipv6@,
            ),
            spec_ranges(s, start, count as nat, Seq::empty(), Seq::empty()) == spec_ranges(
                s,
                reader.cur.pos as int,
                (count - i) as nat,
                ipv4@,
                ipv6@,
            ),
        decreases count - i,
    {
        let from = match reader.read_bytes() {
            Ok(v) => v,
            Err(f) => {
                return Err(f);
            },
        };
        let to = match reader.read_bytes() {
            Ok(v) => v,
            Err(f) => {
                return Err(f);
            },
        };
        if from.len() == 4 && to.len() == 4 {
            let f = be_u128(from);
            let t = be_u128(to);
            proof {
                lemma_be_value_bound(from@);
                lemma_be_value_bound(to@);
                vstd::arithmetic::power2::lemma2_to64();
            }
            ipv4.push(Ipv4Range { from: f as u32, to: t as u32 });
        } else if from.len() == 16 && to.len() == 16 {
            let f = be_u128(from);
            let t = be_u128(to);
            ipv6.push(Ipv6Range { from: f, to: t });
        } else {
            return Err(Failure::Error(Error::Invalid("IP range must contain either 4 or 16 byte addresses")));
        }
        i = i + 1;
    }
    Ok(IpSet { ipv4, ipv6 })
}

/// Reads the values of a GeoIP rule set, in order.
struct Reader<'a> {
    cur: Cursor<'a>,
}

impl<'a> Reader<'a> {
    spec fn wf(&self) -> bool {
        self.cur.wf()
    }

    fn new(data: &'a [u8]) -> (r: Self)
        ensures
            r.wf(),
            r.cur.data@ == data@,
            r.cur.pos == 0,
    {
        Reader { cur: Cursor::new(data) }
    }

    fn remaining(&self) -> (r: &'a [u8])
        requires
            self.wf(),
        ensures
            r@ == self.cur.data@.subrange(self.cur.pos as int, self.cur.data@.len() as int),
    {
        self.cur.remaining()
    }

    fn read_u8(&mut self) -> (r: Result<u8>)
        requires
            old(self).wf(),
        ensures
            final(self).wf(),
            final(self).cur.data == old(self).cur.data,
            match spec_u8(old(self).cur.data@, old(self).cur.pos as int) {
                Ok((v, p)) => r matches Ok(x) && x == v && final(self).cur.pos == p,
                Err((e, q)) => r matches Err(x) && x == e && final(self).cur.pos == q,
            },
    {
        match self.cur.read_u8() {
            Some(v) => Ok(v),
            None => Err(Error::Invalid("unexpected EOF")),
        }
    }

    fn read_exact(&mut self, len: usize) -> (r: Result<&'a [u8]>)
        requires
            old(self).wf(),
        ensures
            final(self).wf(),
            final(self).cur.data == old(self).cur.data,
            match take_bytes(old(self).cur.data@, old(self).cur.pos as int, len as int) {
                Some((b, p)) => r matches Ok(x) && x@ == b && final(self).cur.pos == p,
                None => r matches Err(x) && x == eof() && final(self).cur.pos == old(self).cur.pos,
            },
    {
        match self.cur.read_exact(len) {
            Some(v) => Ok(v),
            None => Err(Error::Invalid("unexpected EOF")),
        }
    }

    fn read_u64_be(&mut self) -> (r: Result<u64>)
        requires
            old(self).wf(),
        ensures
            final(self).wf(),
            final(self).cur.data == old(self).cur.data,
            match take_be(old(self).cur.data@, old(self).cur.pos as int, 8) {
                Some((v, p)) => r matches Ok(x) && x == v && final(self).cur.pos == p,
                None => r matches Err(x) && x == eof() && final(self).cur.pos == old(self).cur.pos,
            },
    {
        let bytes = match self.read_exact(8) {
            Ok(v) => v,
            Err(e) => {
                return Err(e);
            },
        };
        proof {
            lemma_be_value_bound(bytes@);
            vstd::arithmetic::power2::lemma2_to64();
        }
        Ok(be_u128(bytes) as u64)
    }

    fn read_uvarint(&mut self) -> (r: Result<u64>)
        requires
            old(self).wf(),
        ensures
            final(self).wf(),
            final(self).cur.data == old(self).cur.data,
            match spec_uvarint(old(self).cur.data@, old(self).cur.pos as int) {
                Ok((v, p)) => r matches Ok(x) && x == v && final(self).cur.pos == p,
                Err((e, q)) => r matches Err(x) && x == e && final(self).cur.pos == q,
            },
    {
        match self.cur.read_uvarint() {
            Ok(v) => Ok(v),
            Err(VarintError::Eof) => Err(Error::Invalid("unexpected EOF")),
            Err(VarintError::TooLong) => Err(Error::Invalid("invalid uvarint")),
        }
    }

    /// A length-prefixed byte string; `Failure::Overflow` where its end
    /// position would not fit in `usize`.
    fn read_bytes(&mut self) -> (r: Step<&'a [u8]>)
        requires
            old(self).wf(),
        ensures
            final(self).wf(),
            final(self).cur.data == old(self).cur.data,
            match spec_bytes(old(self).cur.data@, old(self).cur.pos as int) {
                Ok((b, p)) => r matches Ok(x) && x@ == b && final(self).cur.pos == p,
                Err((f, q)) => r matches Err(x) && x == f && final(self).cur.pos == q,
            },
    {
        let len = match self.read_uvarint() {
            Ok(v) => v,
            Err(e) => {
                return Err(Failure::Error(e));
            },
        };
        if len > usize::MAX as u64 {
            return Err(Failure::Error(Error::Invalid("byte array is too large")));
        }
        let len = len as usize;
        if len > usize::MAX - self.cur.pos {
            return Err(Failure::Overflow);
        }
        match self.read_exact(len) {
            Ok(v) => Ok(v),
            Err(e) => Err(Failure::Error(e)),
        }
    }
}

/// The text of an error other than an I/O error.
pub open spec fn message_text(e: Error) -> Seq<char> {
    match e {
        Error::Io(_) => "I/O error: "@,
        Error::Invalid(msg) => "invalid SRS: "@ + msg@,
        Error::UnsupportedVersion(v) => "unsupported SRS version: "@ + decimal_text(v as nat),
        Error::UnsupportedRuleType(v) => "unsupported rule type: "@ + decimal_text(v as nat),
        Error::UnsupportedRuleItem(v) => "unsupported rule item: "@ + decimal_text(v as nat),
    }
}

impl Error {
    /// The text of the error, as its `Display` shows it. The text of an I/O
    /// error comes from the system and follows the prefix.
    pub fn message(&self) -> (r: String)
        ensures
            match self {
                Error::Io(_) => r@.len() >= "I/O error: "@.len() && r@.subrange(0, "I/O error: "@.len() as int)
                    == "I/O error: "@,
                _ => r@ == message_text(*self),
            },
    {
        let mut out: Vec<char> = Vec::new();
        match self {
            Error::Io(e) => {
                push_str(&mut out, "I/O error: ");
                let text = io_error_text(e);
                push_str(&mut out, text.as_str());
            },
            Error::Invalid(msg) => {
                push_str(&mut out, "invalid SRS: ");
                push_str(&mut out, msg);
            },
            Error::UnsupportedVersion(v) => {
                push_str(&mut out, "unsupported SRS version: ");
                push_decimal(&mut out, *v as u64);
            },
            Error::UnsupportedRuleType(v) => {
                push_str(&mut out, "unsupported rule type: ");
                push_decimal(&mut out, *v as u64);
            },
            Error::UnsupportedRuleItem(v) => {
                push_str(&mut out, "unsupported rule item: ");
                push_decimal(&mut out, *v as u64);
            },
        }
        string_from_chars(&out)
    }
}

} // verus!
