//! GeoSite rule sets: an SRS file whose single default rule holds one domain
//! matcher, a succinct trie of reversed domains.
use vstd::prelude::*;
use vstd::std_specs::convert::FromSpecImpl;
use vstd::utf8::{decode_utf8, encode_scalar, encode_utf8};
use crate::bitmap::{
    bit, bit_at, count_ones, lemma_bit_value, lemma_lowest_set_bit, lemma_masked_popcount,
    lemma_ones_before_monotone, lemma_ones_before_total, lemma_ones_before_word,
    lemma_ones_below_bounds, lemma_ones_below_flat, lemma_ones_in_words_bounds, lemma_split_index,
    ones_before, ones_below, ones_in_words, popcount, zeros_before,
};
use crate::parser::srs::{
    children_start, count_zeros_at, is_select, select_at, total_ones, trie_scan, trie_tail_scan, SuccinctView,
};
use crate::text::{
    decimal_text, lemma_encode_valid, lemma_valid_utf8_tail, lossy_decode, push_decimal, push_str,
    reverse_domain, reverse_domain_bytes, string_from_chars, strings_from_utf8,
};
use crate::order::{
    bytes_view, contains_sorted, lemma_bytes_view_push, lemma_push_contains, sort_dedup, sorted_strict,
};
use vstd::utf8::valid_utf8;
use crate::wire::{be_value, lemma_be_value_bound, lemma_uvarint_advances, take_u8, take_uvarint, uvarint_stop, be_u128, Cursor, VarintError};
use crate::zlib::{inflate, io_error_text, zlib_inflated};

verus! {

pub const RULE_TYPE_DEFAULT: u8 = 0;
pub const RULE_ITEM_DOMAIN: u8 = 2;
pub const RULE_ITEM_FINAL: u8 = 0xff;

/// The domain matcher layout of format version 1.
pub const DOMAIN_MATCHER_VERSION_V1: u8 = 1;
/// The succinct set layout of format versions 2 and later.
pub const SUCCINCT_SET_VERSION: u8 = 0;

/// The label that ends a key under which every longer domain matches.
pub const PREFIX_LABEL: u8 = 0x0d;
/// The label that ends a key under which the domain and its subdomains match.
pub const ROOT_LABEL: u8 = 0x0a;

/// Why a GeoSite rule set could not be read.
#[derive(Debug)]
pub enum Error {
    Io(std::io::Error),
    Invalid(&'static str),
    UnsupportedSrsVersion(u8),
    UnsupportedDomainVersion(u8),
    UnsupportedSuccinctSetVersion(u8),
    UnsupportedRuleType(u8),
    UnsupportedRuleItem(u8),
}

impl From<std::io::Error> for Error {
    fn from(err: std::io::Error) -> (r: Self) {
        Error::Io(err)
    }
}

impl FromSpecImpl<std::io::Error> for Error {
    open spec fn obeys_from_spec() -> bool {
        true
    }

    open spec fn from_spec(err: std::io::Error) -> Self {
        Error::Io(err)
    }
}

pub type Result<T> = core::result::Result<T, Error>;

/// How reading can stop short of a value: with an error, or at a trie whose
/// bitmap is too large for the 32-bit ranks and selects.
#[derive(Debug)]
pub enum Failure {
    Error(Error),
    Oversized,
}

/// A value read from a position, with the position after it; or how the
/// reading stopped, with the position where it stopped.
pub type Parsed<T> = core::result::Result<(T, int), (Failure, int)>;

/// Reading stops with error `e` at position `pos`.
pub open spec fn fail<T>(e: Error, pos: int) -> Parsed<T> {
    Err((Failure::Error(e), pos))
}

/// The error for data that ends too early.
pub open spec fn eof() -> Error {
    Error::Invalid("unexpected EOF")
}

// ------------------------------------------------------------------------
// The format, as spec functions over the bytes.
// ------------------------------------------------------------------------

pub open spec fn spec_u8(s: Seq<u8>, pos: int) -> Parsed<u8> {
    match take_u8(s, pos) {
        Some(x) => Ok(x),
        None => fail(eof(), pos),
    }
}

/// `len` bytes at `pos`; the end position must fit in `usize`.
pub open spec fn spec_exact(s: Seq<u8>, pos: int, len: int) -> Parsed<Seq<u8>> {
    if pos + len > usize::MAX {
        fail(Error::Invalid("integer overflow"), pos)
    } else if pos + len > s.len() {
        fail(eof(), pos)
    } else {
        Ok((s.subrange(pos, pos + len), pos + len))
    }
}

pub open spec fn spec_uvarint(s: Seq<u8>, pos: int) -> Parsed<u64> {
    match take_uvarint(s, pos) {
        Ok(x) => Ok(x),
        Err(VarintError::Eof) => fail(eof(), uvarint_stop(s, pos, VarintError::Eof)),
        Err(VarintError::TooLong) => fail(
            Error::Invalid("invalid uvarint"),
            uvarint_stop(s, pos, VarintError::TooLong),
        ),
    }
}

/// Reading the shortest LEB128 encoding of a value (seven-bit groups, lowest
/// first, the high bit set on all but the last byte) gives the value back,
/// and the reader stops just after the encoding, whatever follows it.
pub proof fn lemma_uvarint_reads_back(v: u64, s: Seq<u8>, pos: int)
    requires
        0 <= pos,
        pos + crate::wire::uvarint_encoding(v as nat).len() <= s.len(),
        s.subrange(pos, pos + crate::wire::uvarint_encoding(v as nat).len()) == crate::wire::uvarint_encoding(
            v as nat,
        ),
    ensures
        spec_uvarint(s, pos) == Ok::<(u64, int), (Failure, int)>((v, pos + crate::wire::uvarint_encoding(v as nat).len())),
{
    crate::wire::lemma_uvarint_round_trip(v, s, pos);
}

/// `n` more big-endian `u64` values.
pub open spec fn spec_u64s(s: Seq<u8>, pos: int, n: nat, acc: Seq<u64>) -> Parsed<Seq<u64>>
    decreases n,
{
    if n == 0 {
        Ok((acc, pos))
    } else {
        match spec_exact(s, pos, 8) {
            Err(f) => Err(f),
            Ok((b, p)) => spec_u64s(s, p, (n - 1) as nat, acc.push(be_value(b) as u64)),
        }
    }
}

/// A counted slice of big-endian `u64` values.
pub open spec fn spec_u64_slice(s: Seq<u8>, pos: int) -> Parsed<Seq<u64>> {
    match spec_uvarint(s, pos) {
        Err(f) => Err(f),
        Ok((n, p)) => if n > usize::MAX {
            fail(Error::Invalid("slice is too large"), p)
        } else {
            spec_u64s(s, p, n as nat, Seq::empty())
        },
    }
}

/// A counted slice of bytes.
pub open spec fn spec_byte_slice(s: Seq<u8>, pos: int) -> Parsed<Seq<u8>> {
    match spec_uvarint(s, pos) {
        Err(f) => Err(f),
        Ok((n, p)) => if n > usize::MAX {
            fail(Error::Invalid("byte slice is too large"), p)
        } else {
            spec_exact(s, p, n as int)
        },
    }
}

/// Every bit position of the label bitmap fits in a `u32`, as the ranks and
/// selects hold them.
pub open spec fn indexes_fit(bitmap: Seq<u64>) -> bool {
    64 * bitmap.len() <= u32::MAX
}

/// The leaves, the label bitmap and the labels of a succinct set.
pub open spec fn spec_set_body(s: Seq<u8>, pos: int) -> Parsed<SuccinctView> {
    match spec_u64_slice(s, pos) {
        Err(f) => Err(f),
        Ok((leaves, p)) => match spec_u64_slice(s, p) {
            Err(f) => Err(f),
            Ok((bitmap, p2)) => match spec_byte_slice(s, p2) {
                Err(f) => Err(f),
                Ok((labels, p3)) => if !indexes_fit(bitmap) {
                    Err((Failure::Oversized, p3))
                } else {
                    Ok((SuccinctView { leaves: leaves, label_bitmap: bitmap, labels: labels }, p3))
                },
            },
        },
    }
}

/// The domain matcher of a file of version `version`: in version 1 a matcher
/// version byte 1 before the set; later, a set version byte 0.
pub open spec fn spec_matcher(s: Seq<u8>, pos: int, version: u8) -> Parsed<SuccinctView> {
    match spec_u8(s, pos) {
        Err(f) => Err(f),
        Ok((v, p)) => if version == 1 {
            if v != DOMAIN_MATCHER_VERSION_V1 {
                fail(Error::UnsupportedDomainVersion(v), p)
            } else {
                spec_set_body(s, p)
            }
        } else {
            if v != SUCCINCT_SET_VERSION {
                fail(Error::UnsupportedSuccinctSetVersion(v), p)
            } else {
                spec_set_body(s, p)
            }
        },
    }
}

/// The inflated body: exactly one default rule holding one domain item, the
/// final item, a clear invert flag, and nothing after it.
pub open spec fn spec_payload(s: Seq<u8>, version: u8) -> core::result::Result<SuccinctView, Failure> {
    match spec_uvarint(s, 0) {
        Err((f, _)) => Err(f),
        Ok((n, p)) => if n != 1 {
            Err(Failure::Error(Error::Invalid("expected exactly one rule")))
        } else {
            match spec_u8(s, p) {
                Err((f, _)) => Err(f),
                Ok((rule_type, p2)) => if rule_type != RULE_TYPE_DEFAULT {
                    Err(Failure::Error(Error::UnsupportedRuleType(rule_type)))
                } else {
                    match spec_u8(s, p2) {
                        Err((f, _)) => Err(f),
                        Ok((item_type, p3)) => if item_type != RULE_ITEM_DOMAIN {
                            Err(Failure::Error(Error::UnsupportedRuleItem(item_type)))
                        } else {
                            match spec_matcher(s, p3, version) {
                                Err((f, _)) => Err(f),
                                Ok((t, p4)) => spec_payload_tail(s, p4, t),
                            }
                        },
                    }
                },
            }
        },
    }
}

/// After the matcher: the final item, a clear invert flag, the end.
pub open spec fn spec_payload_tail(s: Seq<u8>, pos: int, t: SuccinctView) -> core::result::Result<
    SuccinctView,
    Failure,
> {
    match spec_u8(s, pos) {
        Err((f, _)) => Err(f),
        Ok((fin, p)) => if fin != RULE_ITEM_FINAL {
            Err(Failure::Error(Error::Invalid("missing final rule item")))
        } else {
            match spec_u8(s, p) {
                Err((f, _)) => Err(f),
                Ok((invert, p2)) => if invert != 0 {
                    Err(Failure::Error(Error::Invalid("inverted domain rules are not supported")))
                } else if p2 != s.len() {
                    Err(Failure::Error(Error::Invalid("trailing data after SRS rule")))
                } else {
                    Ok(t)
                },
            }
        },
    }
}

/// The file header: the magic `SRS`, then version 1 or 2.
pub open spec fn spec_header(data: Seq<u8>) -> core::result::Result<u8, Error> {
    if data.len() < 3 {
        Err(eof())
    } else if data.subrange(0, 3) != seq![0x53u8, 0x52u8, 0x53u8] {
        Err(Error::Invalid("invalid SRS magic"))
    } else if data.len() < 4 {
        Err(eof())
    } else if data[3] != 1 && data[3] != 2 {
        Err(Error::UnsupportedSrsVersion(data[3]))
    } else {
        Ok(data[3])
    }
}

/// A file whose reading ends with a value or an error, not at a trie too
/// large for its indexes.
pub open spec fn parse_defined(data: Seq<u8>) -> bool {
    spec_header(data) matches Ok(version) ==> (zlib_inflated(data.subrange(4, data.len() as int))
        matches Some(body) ==> !(spec_payload(body, version) matches Err(Failure::Oversized)))
}

/// What reading the file `data` gives: the error of its header, an I/O error
/// where its body does not inflate, or the trie or error of its body.
pub open spec fn parse_result(data: Seq<u8>, r: Result<SrsGeoSite>) -> bool {
    match spec_header(data) {
        Err(e) => r matches Err(x) && x == e,
        Ok(version) => match zlib_inflated(data.subrange(4, data.len() as int)) {
            None => r matches Err(Error::Io(_)),
            Some(body) => match spec_payload(body, version) {
                Ok(t) => r matches Ok(g) && g@ == t,
                Err(f) => r matches Err(x) && f == Failure::Error(x),
            },
        },
    }
}

/// A GeoSite body that reads holds exactly one default rule with one domain
/// item: a rule count 1, the rule type byte 0, the item type byte 2; and it
/// ends with the final item byte `0xff` and an invert byte 0.
pub proof fn lemma_payload_bytes(s: Seq<u8>, version: u8)
    ensures
        spec_payload(s, version) is Ok ==> (take_uvarint(s, 0) matches Ok((count, p)) && count == 1 && 0
            <= p && p + 1 < s.len() && s[p] == 0 && s[p + 1] == 2 && s.len() >= 2 && s[s.len() - 2]
            == 0xff && s[s.len() - 1] == 0),
{
    lemma_uvarint_advances(s, 0);
}

/// The domain matcher of a version-1 file is read only after the matcher
/// version byte 1; that of a later file only after the set version byte 0.
pub proof fn lemma_matcher_version_byte(s: Seq<u8>, pos: int, version: u8)
    ensures
        spec_matcher(s, pos, version) is Ok ==> 0 <= pos < s.len() && (version == 1 ==> s[pos] == 1) && (
        version != 1 ==> s[pos] == 0),
{
}

/// A file gets past the header check exactly when it starts with the magic
/// `SRS` and version 1 or 2.
pub proof fn lemma_header_accepts(data: Seq<u8>)
    ensures
        spec_header(data) is Ok <==> (data.len() >= 4 && data.subrange(0, 3) == seq![0x53u8, 0x52u8, 0x53u8]
            && (data[3] == 1 || data[3] == 2)),
        spec_header(data) is Ok ==> spec_header(data) == Ok::<u8, Error>(data[3]),
{
}

// ------------------------------------------------------------------------
// Reading.
// ------------------------------------------------------------------------

/// The outcome of a read against its spec: the value (by `view`) and the
/// position after it, or the same error.
pub open spec fn read_agrees<T, V>(r: Result<T>, end: int, spec: Parsed<V>, view: spec_fn(T) -> V) -> bool {
    match spec {
        Ok((v, p)) => r matches Ok(x) && view(x) == v && end == p,
        Err((f, p)) => r matches Err(x) && f == Failure::Error(x) && end == p,
    }
}

/// Reads the values of a rule set, in order.
struct Reader<'a> {
    cur: Cursor<'a>,
}

impl<'a> Reader<'a> {
    spec fn wf(&self) -> bool {
        self.cur.wf()
    }

    spec fn bytes(&self) -> Seq<u8> {
        self.cur.data@
    }

    spec fn at(&self) -> int {
        self.cur.pos as int
    }

    fn new(data: &'a [u8]) -> (r: Self)
        ensures
            r.wf(),
            r.bytes() == data@,
            r.at() == 0,
    {
        Reader { cur: Cursor::new(data) }
    }

    fn remaining(&self) -> (r: &'a [u8])
        requires
            self.wf(),
        ensures
            r@ == self.bytes().subrange(self.at(), self.bytes().len() as int),
    {
        self.cur.remaining()
    }

    fn read_u8(&mut self) -> (r: Result<u8>)
        requires
            old(self).wf(),
        ensures
            final(self).wf(),
            final(self).bytes() == old(self).bytes(),
            read_agrees(r, final(self).at(), spec_u8(old(self).bytes(), old(self).at()), |x: u8| x),
    {
        match self.cur.read_u8() {
            Some(v) => Ok(v),
            None => Err(Error::Invalid("unexpected EOF")),
        }
    }

    fn read_exact(&mut self, len: usize) -> (r: Result<&'a [u8]>)
        requires
            old(self).wf(),
        ensures
            final(self).wf(),
            final(self).bytes() == old(self).bytes(),
            read_agrees(
                r,
                final(self).at(),
                spec_exact(old(self).bytes(), old(self).at(), len as int),
                |x: &'a [u8]| x@,
            ),
    {
        if self.cur.pos.checked_add(len).is_none() {
            return Err(Error::Invalid("integer overflow"));
        }
        match self.cur.read_exact(len) {
            Some(v) => Ok(v),
            None => Err(Error::Invalid("unexpected EOF")),
        }
    }

    fn read_u64_be(&mut self) -> (r: Result<u64>)
        requires
            old(self).wf(),
        ensures
            final(self).wf(),
            final(self).bytes() == old(self).bytes(),
            read_agrees(
                r,
                final(self).at(),
                match spec_exact(old(self).bytes(), old(self).at(), 8) {
                    Err(f) => Err(f),
                    Ok((b, p)) => Ok((be_value(b) as u64, p)),
                },
                |x: u64| x,
            ),
    {
        let bytes = match self.read_exact(8) {
            Ok(b) => b,
            Err(e) => {
                return Err(e);
            },
        };
        proof {
            lemma_be_value_bound(bytes@);
            vstd::arithmetic::power2::lemma2_to64();
        }
        Ok(be_u128(bytes) as u64)
    }

    fn read_uvarint(&mut self) -> (r: Result<u64>)
        requires
            old(self).wf(),
        ensures
            final(self).wf(),
            final(self).bytes() == old(self).bytes(),
            read_agrees(r, final(self).at(), spec_uvarint(old(self).bytes(), old(self).at()), |x: u64| x),
    {
        match self.cur.read_uvarint() {
            Ok(v) => Ok(v),
            Err(VarintError::Eof) => Err(Error::Invalid("unexpected EOF")),
            Err(VarintError::TooLong) => Err(Error::Invalid("invalid uvarint")),
        }
    }

    fn read_u64_slice(&mut self) -> (r: Result<Vec<u64>>)
        requires
            old(self).wf(),
        ensures
            final(self).wf(),
            final(self).bytes() == old(self).bytes(),
            read_agrees(
                r,
                final(self).at(),
                spec_u64_slice(old(self).bytes(), old(self).at()),
                |x: Vec<u64>| x@,
            ),
    {
        let ghost s = self.bytes();
        let len = match self.read_uvarint() {
            Ok(v) => v,
            Err(e) => {
                return Err(e);
            },
        };
        if len > usize::MAX as u64 {
            return Err(Error::Invalid("slice is too large"));
        }
        let len = len as usize;
        let ghost whole = spec_u64s(s, self.at(), len as nat, Seq::empty());
        let mut result: Vec<u64> = Vec::with_capacity(len);
        let mut i: usize = 0;
        while i < len
            invariant
                self.wf(),
                self.bytes() == s,
                s == old(self).bytes(),
                i <= len,
                whole == spec_u64_slice(s, old(self).at()),
                whole == spec_u64s(s, self.at(), (len - i) as nat, result@),
            decreases len - i,
        {
            let value = match self.read_u64_be() {
                Ok(v) => v,
                Err(e) => {
                    return Err(e);
                },
            };
            result.push(value);
            i = i + 1;
        }
        Ok(result)
    }

    fn read_byte_slice(&mut self) -> (r: Result<Vec<u8>>)
        requires
            old(self).wf(),
        ensures
            final(self).wf(),
            final(self).bytes() == old(self).bytes(),
            read_agrees(
                r,
                final(self).at(),
                spec_byte_slice(old(self).bytes(), old(self).at()),
                |x: Vec<u8>| x@,
            ),
    {
        let len = match self.read_uvarint() {
            Ok(v) => v,
            Err(e) => {
                return Err(e);
            },
        };
        if len > usize::MAX as u64 {
            return Err(Error::Invalid("byte slice is too large"));
        }
        let bytes = match self.read_exact(len as usize) {
            Ok(v) => v,
            Err(e) => {
                return Err(e);
            },
        };
        Ok(vstd::slice::slice_to_vec(bytes))
    }
}

// ------------------------------------------------------------------------
// The succinct set.
// ------------------------------------------------------------------------

/// A trie in LOUDS form: `label_bitmap` holds, node after node, a 0 for each
/// child and a 1 that closes the node; `labels` holds the label of each edge;
/// `leaves` marks the nodes where a key ends. `ranks` and `selects` index the
/// bitmap.
pub struct SuccinctSet {
    leaves: Vec<u64>,
    label_bitmap: Vec<u64>,
    labels: Vec<u8>,
    ranks: Vec<u32>,
    selects: Vec<u32>,
}

/// `ranks[k]` counts the set bits in the first `k` words of `bm`.
pub open spec fn ranks_ok(bm: Seq<u64>, ranks: Seq<u32>) -> bool {
    &&& ranks.len() == bm.len() + 1
    &&& forall|k: int| 0 <= k <= bm.len() ==> #[trigger] ranks[k] == ones_in_words(bm, k)
}

/// `selects[m]` is the position of the set bit with `64 m` set bits before it.
pub open spec fn selects_ok(bm: Seq<u64>, selects: Seq<u32>) -> bool {
    &&& selects.len() == (total_ones(bm) + 63) / 64
    &&& forall|m: int| 0 <= m < selects.len() ==> is_select(bm, #[trigger] selects[m] as int, 64 * m)
}

impl View for SuccinctSet {
    type V = SuccinctView;

    closed spec fn view(&self) -> SuccinctView {
        SuccinctView {
            leaves: self.leaves@,
            label_bitmap: self.label_bitmap@,
            labels: self.labels@,
        }
    }
}

impl SuccinctSet {
    /// The indexes agree with the bitmap.
    #[verifier::type_invariant]
    spec fn indexed(&self) -> bool {
        &&& indexes_fit(self.label_bitmap@)
        &&& ranks_ok(self.label_bitmap@, self.ranks@)
        &&& selects_ok(self.label_bitmap@, self.selects@)
    }
}

/// Builds the selects and the ranks of a label bitmap.
fn build_indexes(bitmap: &[u64]) -> (r: (Vec<u32>, Vec<u32>))
    requires
        indexes_fit(bitmap@),
    ensures
        selects_ok(bitmap@, r.0@),
        ranks_ok(bitmap@, r.1@),
{
    let ghost bm = bitmap@;
    let n = bitmap.len();
    let mut ranks: Vec<u32> = Vec::with_capacity(n + 1);
    ranks.push(0);
    let mut total: u32 = 0;
    let mut k: usize = 0;
    while k < n
        invariant
            bm == bitmap@,
            n == bm.len(),
            64 * n <= u32::MAX,
            k <= n,
            ranks@.len() == k + 1,
            forall|j: int| 0 <= j <= k ==> #[trigger] ranks@[j] == ones_in_words(bm, j),
            total == ones_in_words(bm, k as int),
        decreases n - k,
    {
        proof {
            lemma_ones_in_words_bounds(bm, k as int + 1);
        }
        let word = bitmap[k];
        total = total + count_ones(word);
        ranks.push(total);
        k = k + 1;
    }
    let mut selects: Vec<u32> = Vec::new();
    let mut ones: usize = 0;
    let mut word_index: usize = 0;
    while word_index < n
        invariant
            bm == bitmap@,
            n == bm.len(),
            64 * n <= u32::MAX,
            word_index <= n,
            ones == ones_in_words(bm, word_index as int),
            selects@.len() == (ones + 63) / 64,
            forall|m: int| 0 <= m < selects@.len() ==> is_select(bm, #[trigger] selects@[m] as int, 64 * m),
        decreases n - word_index,
    {
        let word = bitmap[word_index];
        let mut w = word;
        let ghost mut q: int = 0;
        proof {
            lemma_ones_in_words_bounds(bm, word_index as int);
            lemma_ones_before_word(bm, word_index as int, 0);
        }
        while w != 0
            invariant
                bm == bitmap@,
                n == bm.len(),
                64 * n <= u32::MAX,
                word_index < n,
                word == bm[word_index as int],
                0 <= q <= 64,
                forall|j: int| 0 <= j < 64 ==> #[trigger] bit(w, j) == if j < q { 0 } else { bit(word, j) },
                ones == ones_in_words(bm, word_index as int) + ones_below(word, q),
                ones <= 64 * word_index + q,
                selects@.len() == (ones + 63) / 64,
                forall|m: int| 0 <= m < selects@.len() ==> is_select(bm, #[trigger] selects@[m] as int, 64 * m),
            decreases 64 - q,
        {
            proof {
                lemma_lowest_set_bit(w);
            }
            let bit_pos = w.trailing_zeros() as usize;
            proof {
                assert(bit(w, bit_pos as int) == 1);
                assert(q <= bit_pos);
                assert forall|j: int| q <= j < bit_pos implies #[trigger] bit(word, j) == 0 by {
                    assert(bit(w, j) == 0);
                }
                lemma_ones_below_flat(word, q, bit_pos as int);
                assert(bit(word, bit_pos as int) == 1);
                lemma_ones_before_word(bm, word_index as int, bit_pos as int);
                let p = 64 * word_index + bit_pos;
                assert(p / 64 == word_index && p % 64 == bit_pos) by (nonlinear_arith)
                    requires
                        p == 64 * word_index + bit_pos,
                        bit_pos < 64,
                ;
                assert(64 * word_index + 64 <= 64 * n) by (nonlinear_arith)
                    requires
                        word_index < n,
                ;
                lemma_ones_below_bounds(word, bit_pos as int);
                assert((word_index << 6) == word_index * 64) by (bit_vector)
                    requires
                        word_index < 0x4000000,
                ;
            }
            assert(ones & 63 == 0 <==> ones % 64 == 0) by (bit_vector);
            if ones & 63 == 0 {
                selects.push(((word_index << 6) + bit_pos) as u32);
            }
            ones = ones + 1;
            w = w & (w - 1);
            proof {
                q = bit_pos as int + 1;
                assert(ones_below(word, q) == ones_below(word, q - 1) + 1);
            }
        }
        proof {
            assert forall|j: int| q <= j < 64 implies #[trigger] bit(word, j) == 0 by {
                assert(bit(w, j) == 0) by {
                    let jj = j as u64;
                    assert((0u64 >> jj) & 1 == 0) by (bit_vector);
                }
            }
            lemma_ones_below_flat(word, q, 64);
        }
        word_index = word_index + 1;
    }
    (selects, ranks)
}


/// Bit `i` of a label bitmap as the trie walk reads it: 1 past the end.
pub open spec fn bitmap_bit(bm: Seq<u64>, i: int) -> u64 {
    if 0 <= i < 64 * bm.len() {
        bit_at(bm, i)
    } else {
        1
    }
}

/// The number of clear bits before `i`; 0 past the end of the bitmap.
pub open spec fn zeros_or_none(bm: Seq<u64>, i: int) -> int {
    if 0 <= i <= 64 * bm.len() {
        zeros_before(bm, i)
    } else {
        0
    }
}

/// The position of the set bit with `k` set bits before it.
pub open spec fn select_pos(bm: Seq<u64>, k: int) -> int {
    choose|p: int| is_select(bm, p, k)
}

/// Bits of `w >> s`: those of `w` from `s` up, then zeros.
proof fn lemma_shift_bits(w: u64, s: u64)
    requires
        s < 64,
    ensures
        forall|j: int| 0 <= j < 64 ==> #[trigger] bit(w >> s, j) == if j + s < 64 {
            bit(w, j + s)
        } else {
            0
        },
{
    assert forall|j: int| 0 <= j < 64 implies #[trigger] bit(w >> s, j) == if j + s < 64 {
        bit(w, j + s)
    } else {
        0
    } by {
        let jj = j as u64;
        assert(((w >> s) >> jj) & 1 == if jj + s < 64 { (w >> ((jj + s) as u64)) & 1 } else { 0 })
            by (bit_vector)
            requires
                s < 64,
                jj < 64,
        ;
    }
}

/// A set bit below the total count exists, at a unique position.
proof fn lemma_select_pos(bm: Seq<u64>, k: int)
    requires
        0 <= k < total_ones(bm),
    ensures
        is_select(bm, select_pos(bm, k), k),
        forall|p: int| #[trigger] is_select(bm, p, k) ==> p == select_pos(bm, k),
{
    crate::parser::srs::lemma_select_exists(bm, k);
    let c = select_pos(bm, k);
    assert forall|p: int| #[trigger] is_select(bm, p, k) implies p == c by {
        if p < c {
            lemma_ones_before_monotone(bm, p + 1, c);
        } else if p > c {
            lemma_ones_before_monotone(bm, c + 1, p);
        }
    }
}

impl SuccinctSet {
    /// Format version 1: the set has no version byte of its own.
    fn read_v1(reader: &mut Reader<'_>) -> (r: core::result::Result<Self, Failure>)
        requires
            old(reader).wf(),
        ensures
            final(reader).wf(),
            final(reader).bytes() == old(reader).bytes(),
            match spec_set_body(old(reader).bytes(), old(reader).at()) {
                Ok((t, p)) => r matches Ok(x) && x@ == t && final(reader).at() == p,
                Err((f, q)) => r matches Err(g) && g == f && final(reader).at() == q,
            },
    {
        Self::read_inner(reader)
    }

    /// Format versions 2 and later: a version byte 0, then the set.
    fn read_v2(reader: &mut Reader<'_>) -> (r: core::result::Result<Self, Failure>)
        requires
            old(reader).wf(),
        ensures
            final(reader).wf(),
            final(reader).bytes() == old(reader).bytes(),
            match spec_u8(old(reader).bytes(), old(reader).at()) {
                Err((f, q)) => r matches Err(g) && g == f && final(reader).at() == q,
                Ok((v, p)) => if v != SUCCINCT_SET_VERSION {
                    r matches Err(g) && g == Failure::Error(Error::UnsupportedSuccinctSetVersion(v))
                        && final(reader).at() == p
                } else {
                    match spec_set_body(old(reader).bytes(), p) {
                        Ok((t, p2)) => r matches Ok(x) && x@ == t && final(reader).at() == p2,
                        Err((f, q)) => r matches Err(g) && g == f && final(reader).at() == q,
                    }
                },
            },
    {
        let version = match reader.read_u8() {
            Ok(v) => v,
            Err(e) => {
                return Err(Failure::Error(e));
            },
        };
        if version != SUCCINCT_SET_VERSION {
            return Err(Failure::Error(Error::UnsupportedSuccinctSetVersion(version)));
        }
        Self::read_inner(reader)
    }

    /// The leaves, the label bitmap and the labels; then the indexes.
    fn read_inner(reader: &mut Reader<'_>) -> (r: core::result::Result<Self, Failure>)
        requires
            old(reader).wf(),
        ensures
            final(reader).wf(),
            final(reader).bytes() == old(reader).bytes(),
            match spec_set_body(old(reader).bytes(), old(reader).at()) {
                Ok((t, p)) => r matches Ok(x) && x@ == t && final(reader).at() == p,
                Err((f, q)) => r matches Err(g) && g == f && final(reader).at() == q,
            },
    {
        let leaves = match reader.read_u64_slice() {
            Ok(v) => v,
            Err(e) => {
                return Err(Failure::Error(e));
            },
        };
        let label_bitmap = match reader.read_u64_slice() {
            Ok(v) => v,
            Err(e) => {
                return Err(Failure::Error(e));
            },
        };
        let labels = match reader.read_byte_slice() {
            Ok(v) => v,
            Err(e) => {
                return Err(Failure::Error(e));
            },
        };
        if label_bitmap.len() > (u32::MAX as usize) / 64 {
            return Err(Failure::Oversized);
        }
        let (selects, ranks) = build_indexes(label_bitmap.as_slice());
        Ok(SuccinctSet { leaves, label_bitmap, labels, ranks, selects })
    }

    /// Bit `index` of the label bitmap; 1 past its end.
    fn get_bit(&self, index: usize) -> (r: u64)
        ensures
            r == bitmap_bit(self@.label_bitmap, index as int),
    {
        proof {
            lemma_split_index(index);
        }
        let word = index >> 6;
        if word >= self.label_bitmap.len() {
            return 1;
        }
        (self.label_bitmap[word] >> (index & 63) as u64) & 1
    }

    /// Whether node `index` is a leaf.
    fn get_leaf(&self, index: usize) -> (r: bool)
        ensures
            r == (bit_at(self@.leaves, index as int) != 0),
    {
        proof {
            lemma_split_index(index);
        }
        let word = index >> 6;
        if word >= self.leaves.len() {
            return false;
        }
        ((self.leaves[word] >> (index & 63) as u64) & 1) != 0
    }

    /// The number of clear bits before `index`, up to the end of the bitmap;
    /// 0 beyond it.
    fn count_zeros(&self, index: usize) -> (r: usize)
        ensures
            r == zeros_or_none(self@.label_bitmap, index as int),
    {
        proof {
            use_type_invariant(self);
        }
        let ghost bm = self.label_bitmap@;
        proof {
            lemma_split_index(index);
        }
        let word_index = index >> 6;
        if word_index >= self.label_bitmap.len() {
            if index == self.label_bitmap.len() * 64 {
                proof {
                    lemma_ones_before_total(bm, index as int);
                    lemma_ones_before_monotone(bm, 0, index as int);
                }
                return index - self.ranks[self.label_bitmap.len()] as usize;
            }
            return 0;
        }
        proof {
            lemma_ones_in_words_bounds(bm, word_index as int);
        }
        let rank_ones = self.ranks[word_index] as usize;
        let bit_index = index & 63;
        let word = self.label_bitmap[word_index];
        let ones_inside = count_ones(word & mask_low_bits(bit_index)) as usize;
        proof {
            assert(index == 64 * word_index + bit_index);
            lemma_masked_popcount(word, bit_index as u64);
            lemma_ones_before_word(bm, word_index as int, bit_index as int);
            lemma_ones_before_monotone(bm, 0, index as int);
            assert(64 * word_index + 64 <= 64 * bm.len()) by (nonlinear_arith)
                requires
                    word_index < bm.len(),
            ;
        }
        index - rank_ones - ones_inside
    }

    /// The position of the set bit with `index` set bits before it.
    fn select_ith_one(&self, index: usize) -> (r: usize)
        requires
            index < total_ones(self@.label_bitmap),
        ensures
            r == select_pos(self@.label_bitmap, index as int),
    {
        proof {
            use_type_invariant(self);
        }
        let ghost bm = self.label_bitmap@;
        proof {
            lemma_select_pos(bm, index as int);
            lemma_ones_before_total(bm, 64 * bm.len() as int);
            assert(index >> 6 == index / 64) by (bit_vector);
        }
        let base = self.selects[index >> 6] as usize;
        proof {
            assert(is_select(bm, base as int, 64 * (index / 64)));
            lemma_split_index(base);
            lemma_ones_before_word(bm, base as int / 64, base as int % 64);
            lemma_ones_below_bounds(bm[base as int / 64], base as int % 64);
        }
        let mut remaining = index - self.ranks[base >> 6] as usize;
        let mut word_index = base >> 6;
        while word_index < self.label_bitmap.len()
            invariant
                bm == self.label_bitmap@,
                indexes_fit(bm),
                index < total_ones(bm),
                is_select(bm, select_pos(bm, index as int), index as int),
                forall|p: int| #[trigger] is_select(bm, p, index as int) ==> p == select_pos(bm, index as int),
                word_index <= bm.len(),
                remaining + ones_in_words(bm, word_index as int) == index,
            decreases bm.len() - word_index,
        {
            let ghost orig = bm[word_index as int];
            let mut word = self.label_bitmap[word_index];
            let mut bit_offset: usize = 0;
            proof {
                lemma_ones_before_word(bm, word_index as int, 0);
                lemma_ones_before_word(bm, word_index as int, 64);
            }
            while word != 0
                invariant
                    bm == self.label_bitmap@,
                    indexes_fit(bm),
                    word_index < bm.len(),
                    orig == bm[word_index as int],
                    is_select(bm, select_pos(bm, index as int), index as int),
                    forall|p: int| #[trigger] is_select(bm, p, index as int) ==> p == select_pos(bm, index as int),
                    bit_offset <= 64,
                    forall|j: int| 0 <= j < 64 ==> #[trigger] bit(word, j) == if j + bit_offset < 64 {
                        bit(orig, j + bit_offset)
                    } else {
                        0
                    },
                    remaining + ones_in_words(bm, word_index as int) + ones_below(orig, bit_offset as int)
                        == index,
                decreases 64 - bit_offset,
            {
                proof {
                    lemma_lowest_set_bit(word);
                }
                let tz = word.trailing_zeros() as usize;
                proof {
                    assert(bit(word, tz as int) == 1);
                    assert(tz + bit_offset < 64);
                    assert forall|j: int| bit_offset <= j < bit_offset + tz implies #[trigger] bit(orig, j) == 0 by {
                        assert(bit(word, j - bit_offset) == 0);
                    }
                    lemma_ones_below_flat(orig, bit_offset as int, (bit_offset + tz) as int);
                    lemma_shift_bits(word, tz as u64);
                }
                word = word >> tz as u64;
                bit_offset = bit_offset + tz;
                if remaining == 0 {
                    proof {
                        let p = 64 * word_index + bit_offset;
                        lemma_ones_before_word(bm, word_index as int, bit_offset as int);
                        assert(p / 64 == word_index && p % 64 == bit_offset) by (nonlinear_arith)
                            requires
                                p == 64 * word_index + bit_offset,
                                bit_offset < 64,
                        ;
                        assert(64 * word_index + 64 <= 64 * bm.len()) by (nonlinear_arith)
                            requires
                                word_index < bm.len(),
                        ;
                        assert(bit(orig, bit_offset as int) == 1);
                        assert(is_select(bm, p, index as int));
                        assert((word_index << 6) == word_index * 64) by (bit_vector)
                            requires
                                word_index < 0x4000000,
                        ;
                    }
                    return (word_index << 6) + bit_offset;
                }
                proof {
                    assert(bit(orig, bit_offset as int) == 1);
                    assert(ones_below(orig, bit_offset + 1) == ones_below(orig, bit_offset as int) + 1);
                    lemma_shift_bits(word, 1);
                }
                word = word >> 1u64;
                bit_offset = bit_offset + 1;
                remaining = remaining - 1;
            }
            proof {
                assert forall|j: int| bit_offset <= j < 64 implies #[trigger] bit(orig, j) == 0 by {
                    assert(bit(word, j - bit_offset) == 0) by {
                        let jj = (j - bit_offset) as u64;
                        assert((0u64 >> jj) & 1 == 0) by (bit_vector);
                    }
                }
                lemma_ones_below_flat(orig, bit_offset as int, 64);
            }
            word_index = word_index + 1;
        }
        proof {
            lemma_ones_in_words_bounds(bm, bm.len() as int);
            assert(false);
        }
        0
    }
}

/// `2^n - 1`: the `n` low bits set; all bits from 64 on.
fn mask_low_bits(n: usize) -> (r: u64)
    ensures
        n < 64 ==> r == ((1u64 << n as u64) - 1) as u64,
        n >= 64 ==> r == u64::MAX,
{
    if n == 0 {
        assert(((1u64 << 0u64) - 1) as u64 == 0) by (bit_vector);
        0
    } else if n >= 64 {
        u64::MAX
    } else {
        let s = n as u64;
        assert(1u64 << s >= 1) by (bit_vector)
            requires
                s < 64,
        ;
        (1u64 << s) - 1
    }
}


// ------------------------------------------------------------------------
// Domain matching.
// ------------------------------------------------------------------------

/// The walk of the trie `t` along key bytes `key[i..]`, standing at node
/// `node` and at bitmap position `pos` among its children: `Some` with
/// whether the key matches, or `None` where the walk indexes out of range.
/// Each child is tried in turn: a clear bitmap bit is an edge, its label at
/// `pos - node`; a set bit (or the end of the bitmap) closes the node. A
/// prefix label matches whatever follows; a root label matches where the key
/// goes on with `.` and the node below it is a leaf; an equal label descends
/// to the child's first edge. Once the key is used up, see `walk_tail`.
pub open spec fn walk_scan(t: SuccinctView, key: Seq<u8>, i: int, node: int, pos: int) -> Option<bool>
    decreases key.len() - i, 64 * t.label_bitmap.len() - pos,
{
    let bm = t.label_bitmap;
    if i >= key.len() {
        walk_tail(t, node, pos)
    } else if bitmap_bit(bm, pos) != 0 {
        Some(false)
    } else if pos < node || pos - node >= t.labels.len() {
        None
    } else {
        let label = t.labels[pos - node];
        let c = key[i];
        let child = zeros_or_none(bm, pos + 1);
        if label == PREFIX_LABEL {
            Some(true)
        } else if label == ROOT_LABEL && c == 0x2e && bit_at(t.leaves, child) != 0 {
            Some(true)
        } else if label == c {
            if child < 1 || child - 1 >= total_ones(bm) {
                None
            } else {
                walk_scan(t, key, i + 1, child, select_pos(bm, child - 1) + 1)
            }
        } else {
            walk_scan(t, key, i, node, pos + 1)
        }
    }
}

/// Once the key is used up: a match where the node is a leaf or one of its
/// edges from `pos` on carries a prefix or a root label.
pub open spec fn walk_tail(t: SuccinctView, node: int, pos: int) -> Option<bool> {
    if bit_at(t.leaves, node) != 0 {
        Some(true)
    } else {
        walk_tail_scan(t, node, pos)
    }
}

/// Whether an edge of node `node` from `pos` on carries a prefix or a root
/// label; `None` where the walk indexes out of range.
pub open spec fn walk_tail_scan(t: SuccinctView, node: int, pos: int) -> Option<bool>
    decreases 64 * t.label_bitmap.len() - pos,
{
    if bitmap_bit(t.label_bitmap, pos) != 0 {
        Some(false)
    } else if pos < node || pos - node >= t.labels.len() {
        None
    } else if t.labels[pos - node] == PREFIX_LABEL || t.labels[pos - node] == ROOT_LABEL {
        Some(true)
    } else {
        walk_tail_scan(t, node, pos + 1)
    }
}

/// The walk for `domain`: its characters reversed, as UTF-8.
pub open spec fn domain_walk(t: SuccinctView, domain: Seq<char>) -> Option<bool> {
    walk_scan(t, encode_utf8(domain.reverse()), 0, 0, 0)
}

/// The domain matcher of a GeoSite rule set.
pub struct Matcher {
    set: SuccinctSet,
}

impl View for Matcher {
    type V = SuccinctView;

    closed spec fn view(&self) -> SuccinctView {
        self.set@
    }
}

impl Matcher {
    /// The walk along the reversed domain `key`; `None` where it would index
    /// out of range.
    fn walk(&self, key: &[u8]) -> (r: Option<bool>)
        ensures
            r == walk_scan(self.set@, key@, 0, 0, 0),
    {
        proof {
            use_type_invariant(&self.set);
        }
        let ghost t = self.set@;
        let ghost bm = t.label_bitmap;
        let total = self.set.ranks[self.set.label_bitmap.len()] as usize;
        let mut node_id: usize = 0;
        let mut bm_idx: usize = 0;
        let mut i: usize = 0;
        while i < key.len()
            invariant
                t == self.set@,
                bm == t.label_bitmap,
                indexes_fit(bm),
                total == total_ones(bm),
                i <= key.len(),
                bm_idx <= 64 * bm.len(),
                walk_scan(t, key@, 0, 0, 0) == walk_scan(t, key@, i as int, node_id as int, bm_idx as int),
            decreases key.len() - i,
        {
            let current_char = key[i];
            loop
                invariant
                    t == self.set@,
                    bm == t.label_bitmap,
                    indexes_fit(bm),
                    i < key.len(),
                    current_char == key@[i as int],
                    bm_idx <= 64 * bm.len(),
                    walk_scan(t, key@, 0, 0, 0) == walk_scan(t, key@, i as int, node_id as int, bm_idx as int),
                ensures
                    bm_idx < 64 * bm.len(),
                    bitmap_bit(bm, bm_idx as int) == 0,
                    node_id <= bm_idx,
                    bm_idx - node_id < t.labels.len(),
                    t.labels[bm_idx - node_id] == current_char,
                    current_char != PREFIX_LABEL,
                decreases 64 * bm.len() - bm_idx,
            {
                if self.set.get_bit(bm_idx) != 0 {
                    return Some(false);
                }
                if bm_idx < node_id || bm_idx - node_id >= self.set.labels.len() {
                    return None;
                }
                let next_label = self.set.labels[bm_idx - node_id];
                if next_label == PREFIX_LABEL {
                    return Some(true);
                }
                if next_label == ROOT_LABEL {
                    let next_node_id = self.set.count_zeros(bm_idx + 1);
                    let has_next = self.set.get_leaf(next_node_id);
                    if current_char == 0x2e && has_next {
                        return Some(true);
                    }
                }
                if next_label == current_char {
                    break;
                }
                bm_idx = bm_idx + 1;
            }
            node_id = self.set.count_zeros(bm_idx + 1);
            if node_id == 0 || node_id - 1 >= total {
                return None;
            }
            proof {
                lemma_select_pos(bm, node_id - 1);
            }
            bm_idx = self.set.select_ith_one(node_id - 1) + 1;
            i = i + 1;
        }
        if self.set.get_leaf(node_id) {
            return Some(true);
        }
        loop
            invariant
                t == self.set@,
                bm == t.label_bitmap,
                indexes_fit(bm),
                bm_idx <= 64 * bm.len(),
                walk_scan(t, key@, 0, 0, 0) == walk_tail_scan(t, node_id as int, bm_idx as int),
            decreases 64 * bm.len() - bm_idx,
        {
            if self.set.get_bit(bm_idx) != 0 {
                return Some(false);
            }
            if bm_idx < node_id || bm_idx - node_id >= self.set.labels.len() {
                return None;
            }
            let next_label = self.set.labels[bm_idx - node_id];
            if next_label == PREFIX_LABEL || next_label == ROOT_LABEL {
                return Some(true);
            }
            bm_idx = bm_idx + 1;
        }
    }

    /// Whether the reversed domain `key` is matched.
    fn has(&self, key: &[u8]) -> (r: bool)
        requires
            walk_scan(self.set@, key@, 0, 0, 0) is Some,
        ensures
            r == walk_scan(self.set@, key@, 0, 0, 0)->0,
    {
        match self.walk(key) {
            Some(found) => found,
            None => false,
        }
    }

    /// Whether `domain` is matched.
    fn matches(&self, domain: &str) -> (r: bool)
        requires
            domain_walk(self.set@, domain@) is Some,
        ensures
            r == domain_walk(self.set@, domain@)->0,
    {
        let reversed = reverse_domain(domain);
        self.has(&reversed)
    }
}

/// A GeoSite rule set: the domain matcher of its single rule.
pub struct SrsGeoSite {
    matcher: Matcher,
}

impl View for SrsGeoSite {
    type V = SuccinctView;

    closed spec fn view(&self) -> SuccinctView {
        self.matcher.set@
    }
}

impl SrsGeoSite {
    /// Reads the inflated body of a rule set of file version `version`.
    pub fn parse_inflated(version: u8, body: &[u8]) -> (r: core::result::Result<SrsGeoSite, Failure>)
        ensures
            match spec_payload(body@, version) {
                Ok(t) => r matches Ok(g) && g@ == t,
                Err(f) => r matches Err(g) && g == f,
            },
    {
        let mut reader = Reader::new(body);
        let rule_count = match reader.read_uvarint() {
            Ok(v) => v,
            Err(e) => {
                return Err(Failure::Error(e));
            },
        };
        if rule_count != 1 {
            return Err(Failure::Error(Error::Invalid("expected exactly one rule")));
        }
        let rule_type = match reader.read_u8() {
            Ok(v) => v,
            Err(e) => {
                return Err(Failure::Error(e));
            },
        };
        if rule_type != RULE_TYPE_DEFAULT {
            return Err(Failure::Error(Error::UnsupportedRuleType(rule_type)));
        }
        let item_type = match reader.read_u8() {
            Ok(v) => v,
            Err(e) => {
                return Err(Failure::Error(e));
            },
        };
        if item_type != RULE_ITEM_DOMAIN {
            return Err(Failure::Error(Error::UnsupportedRuleItem(item_type)));
        }
        let matcher = if version == 1 {
            let domain_version = match reader.read_u8() {
                Ok(v) => v,
                Err(e) => {
                    return Err(Failure::Error(e));
                },
            };
            if domain_version != DOMAIN_MATCHER_VERSION_V1 {
                return Err(Failure::Error(Error::UnsupportedDomainVersion(domain_version)));
            }
            match SuccinctSet::read_v1(&mut reader) {
                Ok(set) => Matcher { set },
                Err(f) => {
                    return Err(f);
                },
            }
        } else {
            match SuccinctSet::read_v2(&mut reader) {
                Ok(set) => Matcher { set },
                Err(f) => {
                    return Err(f);
                },
            }
        };
        let final_item = match reader.read_u8() {
            Ok(v) => v,
            Err(e) => {
                return Err(Failure::Error(e));
            },
        };
        if final_item != RULE_ITEM_FINAL {
            return Err(Failure::Error(Error::Invalid("missing final rule item")));
        }
        let invert = match reader.read_u8() {
            Ok(v) => v,
            Err(e) => {
                return Err(Failure::Error(e));
            },
        };
        if invert != 0 {
            return Err(Failure::Error(Error::Invalid("inverted domain rules are not supported")));
        }
        if reader.remaining().len() != 0 {
            return Err(Failure::Error(Error::Invalid("trailing data after SRS rule")));
        }
        Ok(SrsGeoSite { matcher })
    }

    /// The file version and the zlib body, after checking the magic and the
    /// version.
    fn read_header(data: &[u8]) -> (r: Result<(u8, &[u8])>)
        ensures
            match spec_header(data@) {
                Err(e) => r matches Err(x) && x == e,
                Ok(version) => r matches Ok((v, body)) && v == version && body@ == data@.subrange(
                    4,
                    data@.len() as int,
                ),
            },
    {
        let mut reader = Reader::new(data);
        let magic = match reader.read_exact(3) {
            Ok(m) => m,
            Err(e) => {
                return Err(e);
            },
        };
        if magic[0] != 0x53 || magic[1] != 0x52 || magic[2] != 0x53 {
            assert(data@.subrange(0, 3) != seq![0x53u8, 0x52u8, 0x53u8]) by {
                if data@.subrange(0, 3) == seq![0x53u8, 0x52u8, 0x53u8] {
                    assert(magic@[0] == 0x53u8 && magic@[1] == 0x52u8 && magic@[2] == 0x53u8);
                }
            }
            return Err(Error::Invalid("invalid SRS magic"));
        }
        assert(data@.subrange(0, 3) =~= seq![0x53u8, 0x52u8, 0x53u8]);
        let version = match reader.read_u8() {
            Ok(v) => v,
            Err(e) => {
                return Err(e);
            },
        };
        if version != 1 && version != 2 {
            return Err(Error::UnsupportedSrsVersion(version));
        }
        Ok((version, reader.remaining()))
    }

    /// Reads a GeoSite rule-set file: the magic `SRS`, version 1 or 2, then a
    /// zlib stream holding one default rule with one domain matcher.
    pub fn parse(data: &[u8]) -> (r: Result<SrsGeoSite>)
        requires
            parse_defined(data@),
        ensures
            parse_result(data@, r),
    {
        let (version, compressed) = match Self::read_header(data) {
            Ok(h) => h,
            Err(e) => {
                return Err(e);
            },
        };
        let decompressed = match inflate(compressed) {
            Ok(d) => d,
            Err(e) => {
                return Err(Error::from(e));
            },
        };
        match Self::parse_inflated(version, &decompressed) {
            Ok(g) => Ok(g),
            Err(Failure::Error(e)) => Err(e),
            Err(Failure::Oversized) => {
                // Excluded by `parse_defined`.
                proof {
                    assert(false);
                }
                Err(Error::Invalid("label bitmap is too large"))
            },
        }
    }

    /// `parse`, where the trie's bitmap fits the 32-bit indexes; `None` where
    /// it does not. The file is read once to decide, then by `parse`.
    pub fn try_parse(data: &[u8]) -> (r: Option<Result<SrsGeoSite>>)
        ensures
            r is None <==> !parse_defined(data@),
            r matches Some(x) ==> parse_result(data@, x),
    {
        let (version, compressed) = match Self::read_header(data) {
            Ok(h) => h,
            Err(e) => {
                return Some(Err(e));
            },
        };
        let decompressed = match inflate(compressed) {
            Ok(d) => d,
            Err(e) => {
                return Some(Err(Error::from(e)));
            },
        };
        match Self::parse_inflated(version, &decompressed) {
            Err(Failure::Oversized) => None,
            _ => Some(Self::parse(data)),
        }
    }

    /// Whether `domain` is matched by the rule set.
    pub fn contains(&self, domain: &str) -> (r: bool)
        requires
            domain_walk(self@, domain@) is Some,
        ensures
            r == domain_walk(self@, domain@)->0,
    {
        self.matcher.matches(domain)
    }

    /// `contains`, or `None` where the walk for `domain` would index out of
    /// range of the trie.
    pub fn try_contains(&self, domain: &str) -> (r: Option<bool>)
        ensures
            r == domain_walk(self@, domain@),
    {
        let reversed = reverse_domain(domain);
        match self.matcher.walk(&reversed) {
            Some(_) => Some(self.contains(domain)),
            None => None,
        }
    }
}


// ------------------------------------------------------------------------
// The keys of the set.
// ------------------------------------------------------------------------

/// The keys below node `node`, whose edges start at bitmap position `pos`,
/// each after `prefix`, in depth-first order: the node's own key first where
/// it is a leaf, then the keys below each of its edges in turn. `None` where
/// the walk indexes out of range or goes deeper than `depth` edges.
pub open spec fn subtree_keys(t: SuccinctView, node: int, pos: int, prefix: Seq<u8>, depth: nat) -> Option<
    Seq<Seq<u8>>,
>
    decreases depth, 64 * t.label_bitmap.len() - pos, 1nat,
{
    match edge_keys(t, node, pos, prefix, depth) {
        None => None,
        Some(below) => Some(
            if bit_at(t.leaves, node) != 0 {
                seq![prefix] + below
            } else {
                below
            },
        ),
    }
}

/// The keys below the edges of node `node` from position `pos` on.
pub open spec fn edge_keys(t: SuccinctView, node: int, pos: int, prefix: Seq<u8>, depth: nat) -> Option<
    Seq<Seq<u8>>,
>
    decreases depth, 64 * t.label_bitmap.len() - pos, 0nat,
{
    let bm = t.label_bitmap;
    if bitmap_bit(bm, pos) != 0 {
        Some(Seq::empty())
    } else if pos < node || pos - node >= t.labels.len() {
        None
    } else {
        let label = t.labels[pos - node];
        let child = zeros_or_none(bm, pos + 1);
        if child < 1 || child - 1 >= total_ones(bm) || depth == 0 {
            None
        } else {
            match subtree_keys(t, child, select_pos(bm, child - 1) + 1, prefix.push(label), (depth - 1) as nat) {
                None => None,
                Some(first) => match edge_keys(t, node, pos + 1, prefix, depth) {
                    None => None,
                    Some(rest) => Some(first + rest),
                },
            }
        }
    }
}

/// The walk over the keys of `t` ends without indexing out of range.
pub open spec fn keys_defined(t: SuccinctView) -> bool {
    exists|depth: nat| #[trigger] subtree_keys(t, 0, 0, Seq::empty(), depth) is Some
}

/// The keys of `t`, in depth-first order.
pub open spec fn trie_keys(t: SuccinctView) -> Seq<Seq<u8>> {
    subtree_keys(
        t,
        0,
        0,
        Seq::empty(),
        choose|depth: nat| #[trigger] subtree_keys(t, 0, 0, Seq::empty(), depth) is Some,
    )->0
}

/// The depth to which `try_list` looks for the keys: one edge per bitmap
/// position, and one more. A walk whose keys are found at all never goes
/// deeper (`lemma_key_depth_suffices`).
pub open spec fn key_depth(t: SuccinctView) -> nat {
    (64 * t.label_bitmap.len() + 1) as nat
}

/// Looking one edge deeper changes nothing where the keys below a node were
/// found.
proof fn lemma_subtree_deeper(t: SuccinctView, node: int, pos: int, prefix: Seq<u8>, depth: nat)
    requires
        subtree_keys(t, node, pos, prefix, depth) is Some,
    ensures
        subtree_keys(t, node, pos, prefix, depth + 1) == subtree_keys(t, node, pos, prefix, depth),
    decreases depth, 64 * t.label_bitmap.len() - pos, 1nat,
{
    lemma_edges_deeper(t, node, pos, prefix, depth);
}

proof fn lemma_edges_deeper(t: SuccinctView, node: int, q: int, prefix: Seq<u8>, depth: nat)
    requires
        edge_keys(t, node, q, prefix, depth) is Some,
    ensures
        edge_keys(t, node, q, prefix, depth + 1) == edge_keys(t, node, q, prefix, depth),
    decreases depth, 64 * t.label_bitmap.len() - q, 0nat,
{
    let bm = t.label_bitmap;
    if bitmap_bit(bm, q) == 0 && node <= q && q - node < t.labels.len() {
        let label = t.labels[q - node];
        let child = zeros_or_none(bm, q + 1);
        let cpos = select_pos(bm, child - 1) + 1;
        lemma_subtree_deeper(t, child, cpos, prefix.push(label), (depth - 1) as nat);
        lemma_edges_deeper(t, node, q + 1, prefix, depth);
    }
}

/// Where the keys of `t` are found at two depths, they are the same keys.
proof fn lemma_keys_any_depth(t: SuccinctView, a: nat, b: nat)
    requires
        subtree_keys(t, 0, 0, Seq::empty(), a) is Some,
        a <= b,
    ensures
        subtree_keys(t, 0, 0, Seq::empty(), b) == subtree_keys(t, 0, 0, Seq::empty(), a),
    decreases b - a,
{
    if a < b {
        lemma_subtree_deeper(t, 0, 0, Seq::empty(), a);
        lemma_keys_any_depth(t, a + 1, b);
    }
}

/// Wherever the keys of `t` are found, they are `trie_keys(t)`.
proof fn lemma_trie_keys(t: SuccinctView, depth: nat)
    requires
        subtree_keys(t, 0, 0, Seq::empty(), depth) is Some,
    ensures
        keys_defined(t),
        subtree_keys(t, 0, 0, Seq::empty(), depth)->0 == trie_keys(t),
{
    let d = choose|d: nat| #[trigger] subtree_keys(t, 0, 0, Seq::empty(), d) is Some;
    if d <= depth {
        lemma_keys_any_depth(t, d, depth);
    } else {
        lemma_keys_any_depth(t, depth, d);
    }
}

/// The bytes of each key.
pub open spec fn keys_view(v: Seq<Vec<u8>>) -> Seq<Seq<u8>> {
    v.map_values(|k: Vec<u8>| k@)
}

proof fn lemma_keys_view_push(v: Seq<Vec<u8>>, k: Vec<u8>)
    ensures
        keys_view(v.push(k)) == keys_view(v).push(k@),
{
    assert(keys_view(v.push(k)) =~= keys_view(v).push(k@));
}

impl SuccinctSet {
    /// Appends to `result` the keys below node `node_id`, each after
    /// `current`, looking no deeper than `depth` edges; `false` where the
    /// walk indexes out of range or goes deeper.
    fn traverse_within(
        &self,
        node_id: usize,
        bm_idx: usize,
        current: &mut Vec<u8>,
        result: &mut Vec<Vec<u8>>,
        depth: usize,
    ) -> (ok: bool)
        requires
            bm_idx <= 64 * self@.label_bitmap.len(),
        ensures
            final(current)@ == old(current)@,
            ok == subtree_keys(self@, node_id as int, bm_idx as int, old(current)@, depth as nat) is Some,
            ok ==> keys_view(final(result)@) == keys_view(old(result)@) + subtree_keys(
                self@,
                node_id as int,
                bm_idx as int,
                old(current)@,
                depth as nat,
            )->0,
        decreases depth, 1nat,
    {
        proof {
            use_type_invariant(self);
        }
        let ghost t = self@;
        let ghost bm = t.label_bitmap;
        let ghost prefix = current@;
        let ghost before = keys_view(result@);
        let total = self.ranks[self.label_bitmap.len()] as usize;
        if self.get_leaf(node_id) {
            let key = current.clone();
            assert(key@ =~= current@);
            proof {
                lemma_keys_view_push(result@, key);
            }
            result.push(key);
        }
        let ghost here = if bit_at(t.leaves, node_id as int) != 0 {
            seq![prefix]
        } else {
            Seq::<Seq<u8>>::empty()
        };
        assert(keys_view(result@) =~= before + here);
        let ghost all = edge_keys(t, node_id as int, bm_idx as int, prefix, depth as nat);
        let mut pos = bm_idx;
        loop
            invariant
                t == self@,
                bm == t.label_bitmap,
                indexes_fit(bm),
                total == total_ones(bm),
                prefix == old(current)@,
                before == keys_view(old(result)@),
                here == (if bit_at(t.leaves, node_id as int) != 0 {
                    seq![prefix]
                } else {
                    Seq::<Seq<u8>>::empty()
                }),
                all == edge_keys(t, node_id as int, bm_idx as int, prefix, depth as nat),
                current@ == prefix,
                bm_idx <= pos <= 64 * bm.len(),
                all is Some ==> edge_keys(t, node_id as int, pos as int, prefix, depth as nat) is Some,
                all is Some ==> before + here + all->0 == keys_view(result@) + edge_keys(
                    t,
                    node_id as int,
                    pos as int,
                    prefix,
                    depth as nat,
                )->0,
                all is None ==> edge_keys(t, node_id as int, pos as int, prefix, depth as nat) is None,
            decreases 64 * bm.len() - pos,
        {
            if self.get_bit(pos) != 0 {
                proof {
                    assert(keys_view(result@) + Seq::<Seq<u8>>::empty() =~= keys_view(result@));
                    if all is Some {
                        assert(before + (here + all->0) =~= before + here + all->0);
                    }
                }
                return true;
            }
            if pos < node_id || pos - node_id >= self.labels.len() {
                return false;
            }
            let next_label = self.labels[pos - node_id];
            current.push(next_label);
            let next_node_id = self.count_zeros(pos + 1);
            if next_node_id == 0 || next_node_id - 1 >= total || depth == 0 {
                current.pop();
                assert(current@ =~= prefix);
                return false;
            }
            proof {
                lemma_select_pos(bm, next_node_id - 1);
            }
            let next_bm_idx = self.select_ith_one(next_node_id - 1) + 1;
            let ghost mid = keys_view(result@);
            let ok = self.traverse_within(next_node_id, next_bm_idx, current, result, depth - 1);
            current.pop();
            assert(current@ =~= prefix);
            if !ok {
                return false;
            }
            proof {
                let first = subtree_keys(
                    t,
                    next_node_id as int,
                    next_bm_idx as int,
                    prefix.push(next_label),
                    (depth - 1) as nat,
                )->0;
                if all is Some {
                    let rest = edge_keys(t, node_id as int, pos + 1, prefix, depth as nat)->0;
                    assert(mid + (first + rest) =~= (mid + first) + rest);
                }
            }
            pos = pos + 1;
        }
    }

    /// Appends to `result` the keys below node `node_id`, each after
    /// `current`, in depth-first order.
    fn traverse(
        &self,
        node_id: usize,
        bm_idx: usize,
        current: &mut Vec<u8>,
        result: &mut Vec<Vec<u8>>,
        Ghost(depth): Ghost<nat>,
    )
        requires
            bm_idx <= 64 * self@.label_bitmap.len(),
            subtree_keys(self@, node_id as int, bm_idx as int, old(current)@, depth) is Some,
        ensures
            final(current)@ == old(current)@,
            keys_view(final(result)@) == keys_view(old(result)@) + subtree_keys(
                self@,
                node_id as int,
                bm_idx as int,
                old(current)@,
                depth,
            )->0,
        decreases depth,
    {
        proof {
            use_type_invariant(self);
        }
        let ghost t = self@;
        let ghost bm = t.label_bitmap;
        let ghost prefix = current@;
        let ghost before = keys_view(result@);
        if self.get_leaf(node_id) {
            let key = current.clone();
            assert(key@ =~= current@);
            proof {
                lemma_keys_view_push(result@, key);
            }
            result.push(key);
        }
        let ghost here = if bit_at(t.leaves, node_id as int) != 0 {
            seq![prefix]
        } else {
            Seq::<Seq<u8>>::empty()
        };
        assert(keys_view(result@) =~= before + here);
        let ghost all = edge_keys(t, node_id as int, bm_idx as int, prefix, depth)->0;
        let mut pos = bm_idx;
        loop
            invariant
                t == self@,
                bm == t.label_bitmap,
                indexes_fit(bm),
                prefix == old(current)@,
                before == keys_view(old(result)@),
                here == (if bit_at(t.leaves, node_id as int) != 0 {
                    seq![prefix]
                } else {
                    Seq::<Seq<u8>>::empty()
                }),
                all == edge_keys(t, node_id as int, bm_idx as int, prefix, depth)->0,
                edge_keys(t, node_id as int, bm_idx as int, prefix, depth) is Some,
                current@ == prefix,
                bm_idx <= pos <= 64 * bm.len(),
                edge_keys(t, node_id as int, pos as int, prefix, depth) is Some,
                before + here + all == keys_view(result@) + edge_keys(
                    t,
                    node_id as int,
                    pos as int,
                    prefix,
                    depth,
                )->0,
            decreases 64 * bm.len() - pos,
        {
            if self.get_bit(pos) != 0 {
                proof {
                    assert(keys_view(result@) + Seq::<Seq<u8>>::empty() =~= keys_view(result@));
                    assert(before + (here + all) =~= before + here + all);
                    if bit_at(t.leaves, node_id as int) == 0 {
                        assert(here + all =~= all);
                    }
                    assert(subtree_keys(t, node_id as int, bm_idx as int, prefix, depth)->0 == here + all);
                }
                return;
            }
            let next_label = self.labels[pos - node_id];
            current.push(next_label);
            let next_node_id = self.count_zeros(pos + 1);
            proof {
                lemma_select_pos(bm, next_node_id - 1);
            }
            let next_bm_idx = self.select_ith_one(next_node_id - 1) + 1;
            let ghost mid = keys_view(result@);
            self.traverse(next_node_id, next_bm_idx, current, result, Ghost((depth - 1) as nat));
            current.pop();
            assert(current@ =~= prefix);
            proof {
                let first = subtree_keys(
                    t,
                    next_node_id as int,
                    next_bm_idx as int,
                    prefix.push(next_label),
                    (depth - 1) as nat,
                )->0;
                let rest = edge_keys(t, node_id as int, pos + 1, prefix, depth)->0;
                assert(mid + (first + rest) =~= (mid + first) + rest);
            }
            pos = pos + 1;
        }
    }

    /// The keys of the set, in depth-first order; where the labels of each
    /// node ascend, in strictly ascending byte order.
    pub fn keys(&self) -> (r: Vec<Vec<u8>>)
        requires
            keys_defined(self@),
        ensures
            keys_view(r@) == trie_keys(self@),
            ascending_labels(self@) ==> sorted_strict(keys_view(r@)),
    {
        proof {
            if ascending_labels(self@) {
                lemma_keys_ascending(self@);
            }
        }
        let ghost depth = choose|depth: nat| #[trigger] subtree_keys(self@, 0, 0, Seq::empty(), depth) is Some;
        let mut result: Vec<Vec<u8>> = Vec::new();
        let mut current: Vec<u8> = Vec::new();
        assert(current@ =~= Seq::<u8>::empty());
        assert(keys_view(result@) =~= Seq::<Seq<u8>>::empty());
        self.traverse(0, 0, &mut current, &mut result, Ghost(depth));
        assert(keys_view(result@) =~= Seq::<Seq<u8>>::empty() + trie_keys(self@));
        result
    }

    /// Whether the walk over the keys of the set ends, found by looking
    /// `key_depth` edges deep.
    fn keys_within_depth(&self) -> (r: bool)
        ensures
            r == subtree_keys(self@, 0, 0, Seq::empty(), key_depth(self@)) is Some,
            r == keys_defined(self@),
    {
        proof {
            use_type_invariant(self);
        }
        let mut result: Vec<Vec<u8>> = Vec::new();
        let mut current: Vec<u8> = Vec::new();
        let depth = self.label_bitmap.len() * 64 + 1;
        assert(current@ =~= Seq::<u8>::empty());
        let r = self.traverse_within(0, 0, &mut current, &mut result, depth);
        proof {
            if r {
                lemma_trie_keys(self@, key_depth(self@));
            } else if keys_defined(self@) {
                lemma_key_depth_suffices(self@);
            }
        }
        r
    }
}

// ------------------------------------------------------------------------
// Listing the domains.
// ------------------------------------------------------------------------

/// A key as text: its bytes read as UTF-8 (invalid sequences replaced), its
/// characters reversed, back as UTF-8 bytes.
pub open spec fn reversed_key(k: Seq<u8>) -> Seq<u8> {
    encode_utf8(lossy_decode(k).reverse())
}

/// A reversed key that names an exact domain: not empty, and starting with
/// neither label.
pub open spec fn is_exact(x: Seq<u8>) -> bool {
    x.len() > 0 && x[0] != PREFIX_LABEL && x[0] != ROOT_LABEL
}

/// Key `j` names the exact domain `x`.
pub open spec fn exact_at(keys: Seq<Seq<u8>>, j: int, x: Seq<u8>) -> bool {
    0 <= j < keys.len() && is_exact(reversed_key(keys[j])) && x == reversed_key(keys[j])
}

/// Key `j`, reversed, is `label` followed by `x`.
pub open spec fn labelled_at(keys: Seq<Seq<u8>>, j: int, label: u8, x: Seq<u8>) -> bool {
    0 <= j < keys.len() && reversed_key(keys[j]).len() > 0 && reversed_key(keys[j])[0] == label
        && x == reversed_key(keys[j]).drop_first()
}

/// The exact domains that the keys name.
pub open spec fn exact_entries(keys: Seq<Seq<u8>>) -> Set<Seq<u8>> {
    Set::new(|x: Seq<u8>| exists|j: int| #[trigger] exact_at(keys, j, x))
}

/// The domains that the keys name after `label`.
pub open spec fn labelled_entries(keys: Seq<Seq<u8>>, label: u8) -> Set<Seq<u8>> {
    Set::new(|x: Seq<u8>| exists|j: int| #[trigger] labelled_at(keys, j, label, x))
}

/// `.` followed by `d`.
pub open spec fn dotted(d: Seq<u8>) -> Seq<u8> {
    seq![0x2eu8] + d
}

/// The exact domains listed: those whose dotted form is not a prefix entry.
pub open spec fn listed_domains(keys: Seq<Seq<u8>>) -> Set<Seq<u8>> {
    exact_entries(keys).filter(|d: Seq<u8>| !labelled_entries(keys, PREFIX_LABEL).contains(dotted(d)))
}

/// What a prefix entry lists: `d` for `.d` where `d` is an exact domain, the
/// entry itself otherwise.
pub open spec fn prefix_listed(keys: Seq<Seq<u8>>, p: Seq<u8>) -> Seq<u8> {
    if p.len() > 0 && p[0] == 0x2e && exact_entries(keys).contains(p.drop_first()) {
        p.drop_first()
    } else {
        p
    }
}

/// The suffixes listed: the root entries, and what each prefix entry lists.
pub open spec fn listed_suffixes(keys: Seq<Seq<u8>>) -> Set<Seq<u8>> {
    Set::new(
        |x: Seq<u8>|
            labelled_entries(keys, ROOT_LABEL).contains(x) || exists|p: Seq<u8>|
                labelled_entries(keys, PREFIX_LABEL).contains(p) && #[trigger] prefix_listed(keys, p) == x,
    )
}

/// The UTF-8 bytes of each string.
pub open spec fn string_bytes(v: Seq<String>) -> Seq<Seq<u8>> {
    v.map_values(|s: String| encode_utf8(s@))
}

/// The strings hold exactly the byte strings of `set`, each once, in
/// lexicographic byte order.
pub open spec fn lists_sorted(v: Seq<String>, set: Set<Seq<u8>>) -> bool {
    &&& sorted_strict(string_bytes(v))
    &&& forall|x: Seq<u8>| string_bytes(v).contains(x) <==> set.contains(x)
}

/// Each string of the list is valid UTF-8.
pub open spec fn all_valid(v: Seq<Seq<u8>>) -> bool {
    forall|x: Seq<u8>| v.contains(x) ==> valid_utf8(x)
}

/// The bytes from position 1 on.
fn tail_bytes(v: &Vec<u8>) -> (r: Vec<u8>)
    requires
        v@.len() > 0,
    ensures
        r@ == v@.drop_first(),
{
    let s = vstd::slice::slice_subrange(v.as_slice(), 1, v.len());
    let r = vstd::slice::slice_to_vec(s);
    assert(r@ =~= v@.drop_first());
    r
}

/// `.` followed by the bytes of `d`.
fn dotted_bytes(d: &Vec<u8>) -> (r: Vec<u8>)
    ensures
        r@ == dotted(d@),
{
    let mut r: Vec<u8> = Vec::new();
    r.push(0x2e);
    let mut i: usize = 0;
    while i < d.len()
        invariant
            i <= d@.len(),
            r@ == seq![0x2eu8] + d@.subrange(0, i as int),
        decreases d@.len() - i,
    {
        proof {
            assert(d@.subrange(0, i + 1) =~= d@.subrange(0, i as int).push(d@[i as int]));
        }
        r.push(d[i]);
        assert(r@ =~= seq![0x2eu8] + d@.subrange(0, i + 1));
        i = i + 1;
    }
    assert(d@.subrange(0, i as int) =~= d@);
    r
}

impl Matcher {
    /// The domains of the matcher: exact domains, and suffixes (root entries,
    /// and prefix entries, where `.domain` with `domain` exact lists
    /// `domain`). Each list is sorted and holds each domain once. Where the
    /// edges of each node carry distinct labels and the keys are valid UTF-8,
    /// the matcher matches each domain listed.
    pub fn dump(&self) -> (r: (Vec<String>, Vec<String>))
        requires
            keys_defined(self@),
        ensures
            lists_sorted(r.0@, listed_domains(trie_keys(self@))),
            lists_sorted(r.1@, listed_suffixes(trie_keys(self@))),
            distinct_labels(self@) && keys_valid(self@) ==> forall|a: int|
                0 <= a < r.0@.len() ==> domain_walk(self@, #[trigger] r.0@[a]@) == Some(true),
            distinct_labels(self@) && keys_valid(self@) ==> forall|a: int|
                0 <= a < r.1@.len() ==> domain_walk(self@, #[trigger] r.1@[a]@) == Some(true),
            ascending_labels(self@) && labels_end_keys(self@) && keys_valid(self@) && keys_shaped(self@)
                ==> forall|d: Seq<char>|
                d.len() > 0 && (forall|j: int| 0 <= j < d.len() ==> #[trigger] d[j] as u32 > 0x0d) ==> (
                #[trigger] domain_walk(self@, d) == Some(true) <==> listed_covers(r.0@, r.1@, d)),
    {
        let keys = self.set.keys();
        let ghost kv = keys_view(keys@);
        let mut domain_list: Vec<Vec<u8>> = Vec::new();
        let mut prefix_list: Vec<Vec<u8>> = Vec::new();
        let mut root_list: Vec<Vec<u8>> = Vec::new();
        let mut i: usize = 0;
        while i < keys.len()
            invariant
                kv == keys_view(keys@),
                kv == trie_keys(self.set@),
                i <= kv.len(),
                forall|x: Seq<u8>| #[trigger] bytes_view(domain_list@).contains(x) <==> exists|j: int| j < i && #[trigger] exact_at(kv, j, x),
                forall|x: Seq<u8>| #[trigger] bytes_view(prefix_list@).contains(x) <==> exists|j: int| j < i && #[trigger] labelled_at(kv, j, PREFIX_LABEL, x),
                forall|x: Seq<u8>| #[trigger] bytes_view(root_list@).contains(x) <==> exists|j: int| j < i && #[trigger] labelled_at(kv, j, ROOT_LABEL, x),
                all_valid(bytes_view(domain_list@)),
                all_valid(bytes_view(prefix_list@)),
                all_valid(bytes_view(root_list@)),
                forall|j: int| 0 <= j < i ==> lossless_key(#[trigger] kv[j]),
            decreases kv.len() - i,
        {
            let reversed = reverse_domain_bytes(keys[i].as_slice());
            let ghost rk = reversed_key(kv[i as int]);
            assert(reversed@ == rk);
            proof {
                let k = kv[i as int];
                lemma_encode_valid(lossy_decode(k).reverse());
                if valid_utf8(k) {
                    lemma_encode_valid(decode_utf8(k).reverse());
                    assert(lossy_decode(k) =~= lossy_decode(k).reverse().reverse());
                    assert(decode_utf8(k) =~= decode_utf8(k).reverse().reverse());
                }
                assert(lossless_key(k));
                assert forall|j: int| 0 <= j < i + 1 implies lossless_key(#[trigger] kv[j]) by {
                    if j == i {
                        assert(kv[j] == k);
                    }
                }
            }
            let ghost dl = bytes_view(domain_list@);
            let ghost pl = bytes_view(prefix_list@);
            let ghost rl = bytes_view(root_list@);
            if reversed.len() == 0 {
            } else if reversed[0] == PREFIX_LABEL {
                let rest = tail_bytes(&reversed);
                proof {
                    lemma_valid_utf8_tail(rk);
                    lemma_bytes_view_push(prefix_list@, rest);
                    lemma_push_contains(pl, rest@);
                    assert(labelled_at(kv, i as int, PREFIX_LABEL, rest@));
                }
                prefix_list.push(rest);
            } else if reversed[0] == ROOT_LABEL {
                let rest = tail_bytes(&reversed);
                proof {
                    lemma_valid_utf8_tail(rk);
                    lemma_bytes_view_push(root_list@, rest);
                    lemma_push_contains(rl, rest@);
                    assert(labelled_at(kv, i as int, ROOT_LABEL, rest@));
                }
                root_list.push(rest);
            } else {
                proof {
                    lemma_bytes_view_push(domain_list@, reversed);
                    lemma_push_contains(dl, reversed@);
                    assert(exact_at(kv, i as int, reversed@));
                }
                domain_list.push(reversed);
            }
            proof {
                assert forall|x: Seq<u8>| #[trigger] bytes_view(domain_list@).contains(x) <==> exists|j: int| j < i + 1 && #[trigger] exact_at(kv, j, x) by {
                    if exists|j: int| j < i + 1 && #[trigger] exact_at(kv, j, x) {
                        let j = choose|j: int| j < i + 1 && #[trigger] exact_at(kv, j, x);
                        if j < i {
                            assert(exists|j: int| j < i && #[trigger] exact_at(kv, j, x));
                        }
                    }
                    if exists|j: int| j < i && #[trigger] exact_at(kv, j, x) {
                        let j = choose|j: int| j < i && #[trigger] exact_at(kv, j, x);
                        assert(j < i + 1 && exact_at(kv, j, x));
                    }
                }
                assert forall|x: Seq<u8>| #[trigger] bytes_view(prefix_list@).contains(x) <==> exists|j: int| j < i + 1 && #[trigger] labelled_at(kv, j, PREFIX_LABEL, x) by {
                    if exists|j: int| j < i + 1 && #[trigger] labelled_at(kv, j, PREFIX_LABEL, x) {
                        let j = choose|j: int| j < i + 1 && #[trigger] labelled_at(kv, j, PREFIX_LABEL, x);
                        if j < i {
                            assert(exists|j: int| j < i && #[trigger] labelled_at(kv, j, PREFIX_LABEL, x));
                        }
                    }
                    if exists|j: int| j < i && #[trigger] labelled_at(kv, j, PREFIX_LABEL, x) {
                        let j = choose|j: int| j < i && #[trigger] labelled_at(kv, j, PREFIX_LABEL, x);
                        assert(j < i + 1 && labelled_at(kv, j, PREFIX_LABEL, x));
                    }
                }
                assert forall|x: Seq<u8>| #[trigger] bytes_view(root_list@).contains(x) <==> exists|j: int| j < i + 1 && #[trigger] labelled_at(kv, j, ROOT_LABEL, x) by {
                    if exists|j: int| j < i + 1 && #[trigger] labelled_at(kv, j, ROOT_LABEL, x) {
                        let j = choose|j: int| j < i + 1 && #[trigger] labelled_at(kv, j, ROOT_LABEL, x);
                        if j < i {
                            assert(exists|j: int| j < i && #[trigger] labelled_at(kv, j, ROOT_LABEL, x));
                        }
                    }
                    if exists|j: int| j < i && #[trigger] labelled_at(kv, j, ROOT_LABEL, x) {
                        let j = choose|j: int| j < i && #[trigger] labelled_at(kv, j, ROOT_LABEL, x);
                        assert(j < i + 1 && labelled_at(kv, j, ROOT_LABEL, x));
                    }
                }
            }
            i = i + 1;
        }
        let ghost exact = exact_entries(kv);
        let ghost prefixes = labelled_entries(kv, PREFIX_LABEL);
        let ghost roots = labelled_entries(kv, ROOT_LABEL);
        let domain_set = sort_dedup(domain_list);
        let prefix_set = sort_dedup(prefix_list);
        let ghost ds = bytes_view(domain_set@);
        let ghost ps = bytes_view(prefix_set@);
        assert forall|x: Seq<u8>| ds.contains(x) <==> exact.contains(x) by {
            if exact.contains(x) {
                let j = choose|j: int| #[trigger] exact_at(kv, j, x);
                assert(j < i && exact_at(kv, j, x));
            }
        }
        assert forall|x: Seq<u8>| ps.contains(x) <==> prefixes.contains(x) by {
            if prefixes.contains(x) {
                let j = choose|j: int| #[trigger] labelled_at(kv, j, PREFIX_LABEL, x);
                assert(j < i && labelled_at(kv, j, PREFIX_LABEL, x));
            }
        }
        assert forall|x: Seq<u8>| bytes_view(root_list@).contains(x) <==> roots.contains(x) by {
            if roots.contains(x) {
                let j = choose|j: int| #[trigger] labelled_at(kv, j, ROOT_LABEL, x);
                assert(j < i && labelled_at(kv, j, ROOT_LABEL, x));
            }
        }
        // Prefix entries `.domain` whose domain is exact become suffixes.
        let mut suffixes = root_list;
        let mut j: usize = 0;
        while j < prefix_set.len()
            invariant
                ps == bytes_view(prefix_set@),
                ds == bytes_view(domain_set@),
                sorted_strict(ds),
                j <= ps.len(),
                forall|x: Seq<u8>| ds.contains(x) <==> exact.contains(x),
                exact == exact_entries(kv),
                all_valid(ps),
                all_valid(bytes_view(suffixes@)),
                forall|x: Seq<u8>| #[trigger] bytes_view(suffixes@).contains(x) <==> roots.contains(x)
                    || exists|m: int| 0 <= m < j && #[trigger] prefix_listed(kv, ps[m]) == x,
            decreases ps.len() - j,
        {
            let p = &prefix_set[j];
            let ghost sv = bytes_view(suffixes@);
            assert(ps.contains(p@)) by {
                assert(ps[j as int] == p@);
            }
            let entry = if p.len() > 0 && p[0] == 0x2e {
                let rest = tail_bytes(p);
                if contains_sorted(&domain_set, rest.as_slice()) {
                    proof {
                        lemma_valid_utf8_tail(p@);
                    }
                    rest
                } else {
                    p.clone()
                }
            } else {
                p.clone()
            };
            assert(entry@ == prefix_listed(kv, ps[j as int])) by {
                assert(entry@ =~= prefix_listed(kv, p@));
            }
            proof {
                lemma_bytes_view_push(suffixes@, entry);
                lemma_push_contains(sv, entry@);
                assert forall|x: Seq<u8>| #[trigger] sv.push(entry@).contains(x) <==> roots.contains(x)
                    || exists|m: int| 0 <= m < j + 1 && #[trigger] prefix_listed(kv, ps[m]) == x by {
                    if exists|m: int| 0 <= m < j + 1 && #[trigger] prefix_listed(kv, ps[m]) == x {
                        let m = choose|m: int| 0 <= m < j + 1 && #[trigger] prefix_listed(kv, ps[m]) == x;
                        if m < j {
                            assert(exists|m: int| 0 <= m < j && #[trigger] prefix_listed(kv, ps[m]) == x);
                        }
                    }
                    if exists|m: int| 0 <= m < j && #[trigger] prefix_listed(kv, ps[m]) == x {
                        let m = choose|m: int| 0 <= m < j && #[trigger] prefix_listed(kv, ps[m]) == x;
                        assert(0 <= m < j + 1 && prefix_listed(kv, ps[m]) == x);
                    }
                }
            }
            suffixes.push(entry);
            j = j + 1;
        }
        // Exact domains whose dotted form is a prefix entry are not listed.
        let mut domains_kept: Vec<Vec<u8>> = Vec::new();
        let mut k: usize = 0;
        while k < domain_set.len()
            invariant
                ps == bytes_view(prefix_set@),
                ds == bytes_view(domain_set@),
                sorted_strict(ds),
                sorted_strict(ps),
                k <= ds.len(),
                forall|x: Seq<u8>| ps.contains(x) <==> prefixes.contains(x),
                forall|a: int| 0 <= a < bytes_view(domains_kept@).len() ==> exists|b: int| 0 <= b < k && #[trigger] ds[b] == #[trigger] bytes_view(domains_kept@)[a],
                sorted_strict(bytes_view(domains_kept@)),
                forall|x: Seq<u8>| #[trigger] bytes_view(domains_kept@).contains(x) <==> (exists|b: int| 0 <= b < k && #[trigger] ds[b] == x) && !prefixes.contains(dotted(x)),
            decreases ds.len() - k,
        {
            let d = &domain_set[k];
            assert(ds[k as int] == d@);
            let dot = dotted_bytes(d);
            let ghost kept = bytes_view(domains_kept@);
            if !contains_sorted(&prefix_set, dot.as_slice()) {
                let c = d.clone();
                assert(c@ =~= d@);
                proof {
                    lemma_bytes_view_push(domains_kept@, c);
                    lemma_push_contains(kept, c@);
                    assert forall|a: int, b: int| 0 <= a < b < kept.len() + 1 implies crate::order::lex_lt(
                        #[trigger] kept.push(c@)[a],
                        #[trigger] kept.push(c@)[b],
                    ) by {
                        if b == kept.len() {
                            let bb = choose|bb: int| 0 <= bb < k && #[trigger] ds[bb] == kept[a];
                            assert(crate::order::lex_lt(ds[bb], ds[k as int]));
                        }
                    }
                }
                domains_kept.push(c);
            }
            proof {
                let nk = bytes_view(domains_kept@);
                assert forall|a: int| 0 <= a < nk.len() implies exists|b: int| 0 <= b < k + 1 && #[trigger] ds[b] == #[trigger] nk[a] by {
                    if a < kept.len() {
                        let b = choose|b: int| 0 <= b < k && #[trigger] ds[b] == kept[a];
                        assert(ds[b] == nk[a]);
                    } else {
                        assert(ds[k as int] == nk[a]);
                    }
                }
                assert forall|x: Seq<u8>| #[trigger] nk.contains(x) <==> (exists|b: int| 0 <= b < k + 1 && #[trigger] ds[b] == x) && !prefixes.contains(dotted(x)) by {
                    if exists|b: int| 0 <= b < k + 1 && #[trigger] ds[b] == x {
                        let b = choose|b: int| 0 <= b < k + 1 && #[trigger] ds[b] == x;
                        if b < k {
                            assert(exists|b: int| 0 <= b < k && #[trigger] ds[b] == x);
                        }
                    }
                    if exists|b: int| 0 <= b < k && #[trigger] ds[b] == x {
                        let b = choose|b: int| 0 <= b < k && #[trigger] ds[b] == x;
                        assert(0 <= b < k + 1 && ds[b] == x);
                    }
                }
            }
            k = k + 1;
        }
        let suffix_set = sort_dedup(suffixes);
        proof {
            let kept = bytes_view(domains_kept@);
            assert forall|x: Seq<u8>| kept.contains(x) <==> listed_domains(kv).contains(x) by {
                if exact.contains(x) {
                    assert(ds.contains(x));
                    let b = choose|b: int| 0 <= b < ds.len() && ds[b] == x;
                    assert(exists|b: int| 0 <= b < k && #[trigger] ds[b] == x);
                }
                if exists|b: int| 0 <= b < k && #[trigger] ds[b] == x {
                    let b = choose|b: int| 0 <= b < k && #[trigger] ds[b] == x;
                    assert(ds.contains(x));
                }
            }
            let ss = bytes_view(suffix_set@);
            assert forall|x: Seq<u8>| ss.contains(x) <==> listed_suffixes(kv).contains(x) by {
                if exists|p: Seq<u8>| prefixes.contains(p) && #[trigger] prefix_listed(kv, p) == x {
                    let p = choose|p: Seq<u8>| prefixes.contains(p) && #[trigger] prefix_listed(kv, p) == x;
                    assert(ps.contains(p));
                    let m = choose|m: int| 0 <= m < ps.len() && ps[m] == p;
                    assert(prefix_listed(kv, ps[m]) == x);
                }
                if exists|m: int| 0 <= m < j && #[trigger] prefix_listed(kv, ps[m]) == x {
                    let m = choose|m: int| 0 <= m < j && #[trigger] prefix_listed(kv, ps[m]) == x;
                    assert(ps.contains(ps[m]));
                    assert(prefixes.contains(ps[m]));
                }
            }
            assert forall|x: Seq<u8>| kept.contains(x) implies valid_utf8(x) by {
                assert(ds.contains(x));
            }
            assert forall|a: int| 0 <= a < domains_kept@.len() implies valid_utf8(#[trigger] domains_kept@[a]@) by {
                assert(kept[a] == domains_kept@[a]@);
                assert(kept.contains(kept[a]));
            }
            assert forall|a: int| 0 <= a < suffix_set@.len() implies valid_utf8(#[trigger] suffix_set@[a]@) by {
                assert(ss[a] == suffix_set@[a]@);
                assert(ss.contains(ss[a]));
                assert(bytes_view(suffixes@).contains(ss[a]));
            }
        }
        let domains = strings_from_utf8(&domains_kept);
        let prefixes_out = strings_from_utf8(&suffix_set);
        proof {
            assert(string_bytes(domains@) =~= bytes_view(domains_kept@));
            assert(string_bytes(prefixes_out@) =~= bytes_view(suffix_set@));
            if distinct_labels(self@) && keys_valid(self@) {
                let kept = bytes_view(domains_kept@);
                let ss = bytes_view(suffix_set@);
                assert forall|a: int| 0 <= a < domains@.len() implies domain_walk(
                    self@,
                    #[trigger] domains@[a]@,
                ) == Some(true) by {
                    assert(string_bytes(domains@)[a] == encode_utf8(domains@[a]@));
                    assert(kept.contains(kept[a]));
                    lemma_listed_strings_matched(self@, domains@[a]@);
                }
                assert forall|a: int| 0 <= a < prefixes_out@.len() implies domain_walk(
                    self@,
                    #[trigger] prefixes_out@[a]@,
                ) == Some(true) by {
                    assert(string_bytes(prefixes_out@)[a] == encode_utf8(prefixes_out@[a]@));
                    assert(ss.contains(ss[a]));
                    lemma_listed_strings_matched(self@, prefixes_out@[a]@);
                }
            }
            if ascending_labels(self@) && labels_end_keys(self@) && keys_valid(self@) && keys_shaped(self@) {
                assert(lists_sorted(domains@, listed_domains(kv)));
                assert(lists_sorted(prefixes_out@, listed_suffixes(kv)));
                assert forall|d: Seq<char>|
                    d.len() > 0 && (forall|j: int| 0 <= j < d.len() ==> #[trigger] d[j] as u32 > 0x0d) implies (
                    #[trigger] domain_walk(self@, d) == Some(true) <==> listed_covers(domains@, prefixes_out@, d)) by {
                    lemma_lists_cover(self@, domains@, prefixes_out@, d);
                }
            }
        }
        (domains, prefixes_out)
    }
}

impl SrsGeoSite {
    /// The domains of the rule set: exact domains, and domain suffixes; each
    /// list sorted, each domain once. Where the edges of each node carry
    /// distinct labels and the keys are valid UTF-8, `contains` matches each
    /// domain listed. Where, further, the labels of each node ascend and the
    /// keys have the shape of a set built from domains and suffixes,
    /// `contains` matches a non-empty domain without characters at or below
    /// `\r` exactly when it is listed exact or a listed suffix covers it.
    pub fn list(&self) -> (r: (Vec<String>, Vec<String>))
        requires
            keys_defined(self@),
        ensures
            lists_sorted(r.0@, listed_domains(trie_keys(self@))),
            lists_sorted(r.1@, listed_suffixes(trie_keys(self@))),
            distinct_labels(self@) && keys_valid(self@) ==> forall|a: int|
                0 <= a < r.0@.len() ==> domain_walk(self@, #[trigger] r.0@[a]@) == Some(true),
            distinct_labels(self@) && keys_valid(self@) ==> forall|a: int|
                0 <= a < r.1@.len() ==> domain_walk(self@, #[trigger] r.1@[a]@) == Some(true),
            ascending_labels(self@) && labels_end_keys(self@) && keys_valid(self@) && keys_shaped(self@)
                ==> forall|d: Seq<char>|
                d.len() > 0 && (forall|j: int| 0 <= j < d.len() ==> #[trigger] d[j] as u32 > 0x0d) ==> (
                #[trigger] domain_walk(self@, d) == Some(true) <==> listed_covers(r.0@, r.1@, d)),
    {
        self.matcher.dump()
    }

    /// `list`, or `None` where the walk over the keys of the trie indexes out
    /// of range.
    pub fn try_list(&self) -> (r: Option<(Vec<String>, Vec<String>)>)
        ensures
            r is None <==> !keys_defined(self@),
            r matches Some(lists) ==> keys_defined(self@) && lists_sorted(
                lists.0@,
                listed_domains(trie_keys(self@)),
            ) && lists_sorted(lists.1@, listed_suffixes(trie_keys(self@))),
            r matches Some(lists) ==> (distinct_labels(self@) && keys_valid(self@) ==> (forall|a: int|
                0 <= a < lists.0@.len() ==> domain_walk(self@, #[trigger] lists.0@[a]@) == Some(true)) && (
            forall|a: int| 0 <= a < lists.1@.len() ==> domain_walk(self@, #[trigger] lists.1@[a]@) == Some(true))),
            r matches Some(lists) ==> (ascending_labels(self@) && labels_end_keys(self@) && keys_valid(self@)
                && keys_shaped(self@) ==> forall|d: Seq<char>|
                d.len() > 0 && (forall|j: int| 0 <= j < d.len() ==> #[trigger] d[j] as u32 > 0x0d) ==> (
                #[trigger] domain_walk(self@, d) == Some(true) <==> listed_covers(lists.0@, lists.1@, d))),
    {
        if self.matcher.set.keys_within_depth() {
            Some(self.list())
        } else {
            None
        }
    }
}

/// The text of an error other than an I/O error.
pub open spec fn message_text(e: Error) -> Seq<char> {
    match e {
        Error::Io(_) => "I/O error: "@,
        Error::Invalid(msg) => "invalid SRS: "@ + msg@,
        Error::UnsupportedSrsVersion(v) => "unsupported SRS version: "@ + decimal_text(v as nat),
        Error::UnsupportedDomainVersion(v) => "unsupported domain matcher version: "@ + decimal_text(
            v as nat,
        ),
        Error::UnsupportedSuccinctSetVersion(v) => "unsupported succinct set version: "@ + decimal_text(
            v as nat,
        ),
        Error::UnsupportedRuleType(v) => "unsupported rule type: "@ + decimal_text(v as nat),
        Error::UnsupportedRuleItem(v) => "unsupported rule item: "@ + decimal_text(v as nat),
    }
}

impl Error {
    /// The text of the error, as its `Display` shows it. The text of an I/O
    /// error comes from the system and follows the prefix.
    pub fn message(&self) -> (r: String)
        ensures
            match self {
                Error::Io(_) => r@.len() >= "I/O error: "@.len() && r@.subrange(0, "I/O error: "@.len() as int)
                    == "I/O error: "@,
                _ => r@ == message_text(*self),
            },
    {
        let mut out: Vec<char> = Vec::new();
        match self {
            Error::Io(e) => {
                push_str(&mut out, "I/O error: ");
                let text = io_error_text(e);
                push_str(&mut out, text.as_str());
            },
            Error::Invalid(msg) => {
                push_str(&mut out, "invalid SRS: ");
                push_str(&mut out, msg);
            },
            Error::UnsupportedSrsVersion(v) => {
                push_str(&mut out, "unsupported SRS version: ");
                push_decimal(&mut out, *v as u64);
            },
            Error::UnsupportedDomainVersion(v) => {
                push_str(&mut out, "unsupported domain matcher version: ");
                push_decimal(&mut out, *v as u64);
            },
            Error::UnsupportedSuccinctSetVersion(v) => {
                push_str(&mut out, "unsupported succinct set version: ");
                push_decimal(&mut out, *v as u64);
            },
            Error::UnsupportedRuleType(v) => {
                push_str(&mut out, "unsupported rule type: ");
                push_decimal(&mut out, *v as u64);
            },
            Error::UnsupportedRuleItem(v) => {
                push_str(&mut out, "unsupported rule item: ");
                push_decimal(&mut out, *v as u64);
            },
        }
        string_from_chars(&out)
    }
}

// ------------------------------------------------------------------------
// Listed keys are matched.
// ------------------------------------------------------------------------

/// The edges of each node carry distinct labels: of two edge positions with
/// no set bit from one to the other, the labels differ.
pub open spec fn distinct_labels(t: SuccinctView) -> bool {
    forall|p: int, q: int|
        #![trigger zeros_before(t.label_bitmap, p), zeros_before(t.label_bitmap, q)]
        0 <= p < q && zeros_before(t.label_bitmap, q) < t.labels.len() && (forall|r: int|
            p <= r <= q ==> #[trigger] bitmap_bit(t.label_bitmap, r) == 0) ==> t.labels[zeros_before(
            t.label_bitmap,
            p,
        )] != t.labels[zeros_before(t.label_bitmap, q)]
}

/// Position `r` is an edge of node `node` whose label differs from key
/// byte `i`.
pub open spec fn edge_differs(t: SuccinctView, key: Seq<u8>, i: int, node: int, r: int) -> bool {
    bitmap_bit(t.label_bitmap, r) == 0 && node <= r && r - node < t.labels.len() && t.labels[r - node]
        != key[i]
}

/// The walk passes over edges whose labels differ from the next key byte.
proof fn lemma_scan_to(t: SuccinctView, key: Seq<u8>, i: int, node: int, start: int, q: int)
    requires
        start <= q,
        0 <= i < key.len(),
        forall|r: int| start <= r < q ==> #[trigger] edge_differs(t, key, i, node, r),
        walk_scan(t, key, i, node, q) == Some(true),
    ensures
        walk_scan(t, key, i, node, start) == Some(true),
    decreases q - start,
{
    if start < q {
        lemma_scan_to(t, key, i, node, start + 1, q);
        assert(edge_differs(t, key, i, node, start));
    }
}

/// Where no bit from `p` up to `q` is set, the set bits before them agree.
proof fn lemma_ones_flat(bm: Seq<u64>, p: int, q: int)
    requires
        0 <= p <= q,
        forall|r: int| p <= r < q ==> #[trigger] bitmap_bit(bm, r) == 0,
    ensures
        ones_before(bm, q) == ones_before(bm, p),
    decreases q - p,
{
    if p < q {
        lemma_ones_flat(bm, p, q - 1);
        assert(bitmap_bit(bm, q - 1) == 0);
    }
}

/// Two edges of the node whose edges start at `pos`, at `r` before `e`,
/// carry different labels.
proof fn lemma_distinct_edges(t: SuccinctView, node: int, pos: int, r: int, e: int)
    requires
        distinct_labels(t),
        0 <= pos <= r < e,
        node == ones_before(t.label_bitmap, pos),
        forall|x: int| pos <= x <= e ==> #[trigger] bitmap_bit(t.label_bitmap, x) == 0,
        e - node < t.labels.len(),
    ensures
        bitmap_bit(t.label_bitmap, r) == 0,
        node <= r,
        r - node < t.labels.len(),
        t.labels[r - node] != t.labels[e - node],
{
    let bm = t.label_bitmap;
    lemma_ones_flat(bm, pos, r);
    lemma_ones_flat(bm, pos, e);
    lemma_ones_before_monotone(bm, 0, pos);
    assert(zeros_before(bm, r) == r - node);
    assert(zeros_before(bm, e) == e - node);
    assert(forall|x: int| r <= x <= e ==> #[trigger] bitmap_bit(bm, x) == 0);
    assert(t.labels[zeros_before(bm, r)] != t.labels[zeros_before(bm, e)]);
}

/// Each key below a node extends the prefix, and the walk along it from
/// the node's first edge matches.
#[verifier::spinoff_prover]
proof fn lemma_subtree_found(t: SuccinctView, node: int, pos: int, prefix: Seq<u8>, depth: nat)
    requires
        distinct_labels(t),
        0 <= pos,
        node == ones_before(t.label_bitmap, pos),
        subtree_keys(t, node, pos, prefix, depth) is Some,
    ensures
        forall|k: Seq<u8>| #[trigger]
            subtree_keys(t, node, pos, prefix, depth)->0.contains(k) ==> prefix.len() <= k.len()
                && k.subrange(0, prefix.len() as int) == prefix && walk_scan(
                t,
                k,
                prefix.len() as int,
                node,
                pos,
            ) == Some(true),
    decreases depth, 64 * t.label_bitmap.len() - pos, 1nat,
{
    let bm = t.label_bitmap;
    lemma_edges_found(t, node, pos, prefix, depth);
    let below = edge_keys(t, node, pos, prefix, depth)->0;
    let all = subtree_keys(t, node, pos, prefix, depth)->0;
    let i = prefix.len() as int;
    assert forall|k: Seq<u8>| #[trigger] all.contains(k) implies i <= k.len() && k.subrange(0, i) == prefix
        && walk_scan(t, k, i, node, pos) == Some(true) by {
        let here = if bit_at(t.leaves, node) != 0 {
            seq![prefix]
        } else {
            Seq::<Seq<u8>>::empty()
        };
        assert(all == here + below);
        let m = choose|m: int| 0 <= m < all.len() && all[m] == k;
        if m < here.len() {
            assert(k == prefix);
            assert(k.subrange(0, i) =~= prefix);
        } else {
            assert(below[m - here.len()] == k);
            assert(below.contains(k));
            let e = choose|e: int|
                pos <= e && (forall|r: int| pos <= r <= e ==> #[trigger] bitmap_bit(bm, r) == 0) && node
                    <= e && e - node < t.labels.len() && k[i] == t.labels[e - node] && walk_scan(
                    t,
                    k,
                    i,
                    node,
                    e,
                ) == Some(true);
            assert forall|r: int| pos <= r < e implies #[trigger] edge_differs(t, k, i, node, r) by {
                lemma_distinct_edges(t, node, pos, r, e);
            }
            assert(0 <= i < k.len());
            lemma_scan_to(t, k, i, node, pos, e);
        }
    }
}

/// Each key below the edges of a node from position `q` on extends the
/// prefix, goes on with the label of one of those edges, and the walk along
/// it from that edge matches.
#[verifier::spinoff_prover]
proof fn lemma_edges_found(t: SuccinctView, node: int, q: int, prefix: Seq<u8>, depth: nat)
    requires
        distinct_labels(t),
        0 <= q,
        node == ones_before(t.label_bitmap, q),
        edge_keys(t, node, q, prefix, depth) is Some,
    ensures
        forall|k: Seq<u8>| #[trigger]
            edge_keys(t, node, q, prefix, depth)->0.contains(k) ==> prefix.len() < k.len() && k.subrange(
                0,
                prefix.len() as int,
            ) == prefix && exists|e: int|
                q <= e && (forall|r: int| q <= r <= e ==> #[trigger] bitmap_bit(t.label_bitmap, r) == 0)
                    && node <= e && e - node < t.labels.len() && k[prefix.len() as int] == t.labels[e
                    - node] && walk_scan(t, k, prefix.len() as int, node, e) == Some(true),
    decreases depth, 64 * t.label_bitmap.len() - q, 0nat,
{
    let bm = t.label_bitmap;
    let i = prefix.len() as int;
    if bitmap_bit(bm, q) != 0 {
        return;
    }
    let label = t.labels[q - node];
    let child = zeros_or_none(bm, q + 1);
    let cpos = select_pos(bm, child - 1) + 1;
    lemma_select_pos(bm, child - 1);
    lemma_ones_before_monotone(bm, cpos - 1, cpos);
    lemma_subtree_found(t, child, cpos, prefix.push(label), (depth - 1) as nat);
    lemma_edges_found(t, node, q + 1, prefix, depth);
    let first = subtree_keys(t, child, cpos, prefix.push(label), (depth - 1) as nat)->0;
    let rest = edge_keys(t, node, q + 1, prefix, depth)->0;
    let all = edge_keys(t, node, q, prefix, depth)->0;
    assert(all == first + rest);
    assert forall|k: Seq<u8>| #[trigger] all.contains(k) implies i < k.len() && k.subrange(0, i) == prefix
        && exists|e: int|
        q <= e && (forall|r: int| q <= r <= e ==> #[trigger] bitmap_bit(bm, r) == 0) && node <= e && e
            - node < t.labels.len() && k[i] == t.labels[e - node] && walk_scan(t, k, i, node, e) == Some(
            true,
        ) by {
        let m = choose|m: int| 0 <= m < all.len() && all[m] == k;
        if m < first.len() {
            assert(first[m] == k);
            assert(first.contains(k));
            let pl = prefix.push(label);
            assert(k.subrange(0, i + 1) == pl);
            assert(k[i] == pl[i]);
            assert(k.subrange(0, i) =~= pl.subrange(0, i));
            assert(pl.subrange(0, i) =~= prefix);
            assert(walk_scan(t, k, i + 1, child, cpos) == Some(true));
            assert(walk_scan(t, k, i, node, q) == Some(true));
            assert(forall|r: int| q <= r <= q ==> #[trigger] bitmap_bit(bm, r) == 0);
        } else {
            assert(rest[m - first.len()] == k);
            assert(rest.contains(k));
            let e = choose|e: int|
                q + 1 <= e && (forall|r: int| q + 1 <= r <= e ==> #[trigger] bitmap_bit(bm, r) == 0)
                    && node <= e && e - node < t.labels.len() && k[i] == t.labels[e - node] && walk_scan(
                    t,
                    k,
                    i,
                    node,
                    e,
                ) == Some(true);
            assert(forall|r: int| q <= r <= e ==> #[trigger] bitmap_bit(bm, r) == 0);
        }
    }
}

/// Every key that the set lists is matched by the walk along it, where the
/// edges of each node carry distinct labels (as in a trie built from a set
/// of keys): what `keys` lists, `has` finds.
pub proof fn lemma_listed_keys_are_matched(t: SuccinctView)
    requires
        keys_defined(t),
        distinct_labels(t),
    ensures
        forall|k: Seq<u8>| #[trigger] trie_keys(t).contains(k) ==> walk_scan(t, k, 0, 0, 0) == Some(true),
{
    let depth = choose|depth: nat| #[trigger] subtree_keys(t, 0, 0, Seq::empty(), depth) is Some;
    lemma_subtree_found(t, 0, 0, Seq::empty(), depth);
}


/// Where a key names the exact domain `d` and another names the prefix
/// entry `.d`, the domain is listed as a suffix and not as an exact domain.
pub proof fn lemma_dotted_prefix_makes_suffix(keys: Seq<Seq<u8>>, d: Seq<u8>)
    requires
        exact_entries(keys).contains(d),
        labelled_entries(keys, PREFIX_LABEL).contains(dotted(d)),
    ensures
        listed_suffixes(keys).contains(d),
        !listed_domains(keys).contains(d),
{
    let p = dotted(d);
    assert(p.drop_first() =~= d);
    assert(prefix_listed(keys, p) == d);
}

/// Each node is closed by a set bit, and every edge of a closed node leads
/// to a closed node: the shape of a trie whose nodes are numbered by their
/// closing bits, the root first, however many clear bits pad the bitmap
/// after the last node.
pub open spec fn nodes_closed(t: SuccinctView) -> bool {
    let bm = t.label_bitmap;
    &&& total_ones(bm) >= 1
    &&& forall|q: int|
        0 <= q < 64 * bm.len() && #[trigger] bit_at(bm, q) == 0 && ones_before(bm, q) < total_ones(bm)
            ==> zeros_before(bm, q + 1) < total_ones(bm)
}

/// Inside the edges of a closed node the position lies within the bitmap.
proof fn lemma_closed_position(bm: Seq<u64>, node: int, pos: int)
    requires
        0 <= pos,
        0 <= node < total_ones(bm),
        ones_before(bm, pos) == node,
    ensures
        pos < 64 * bm.len(),
        bitmap_bit(bm, pos) == bit_at(bm, pos),
        bit_at(bm, pos) == 0 ==> pos + 1 < 64 * bm.len() && ones_before(bm, pos + 1) == node,
{
    if pos >= 64 * bm.len() {
        lemma_ones_before_total(bm, pos);
    }
    if bit_at(bm, pos) == 0 {
        assert(ones_before(bm, pos + 1) == ones_before(bm, pos) + bit_at(bm, pos));
        if pos + 1 >= 64 * bm.len() {
            lemma_ones_before_total(bm, pos + 1);
        }
    }
}

/// Past the key, both walks look for a prefix or a root label among the
/// same edges.
proof fn lemma_tail_scans_agree(t: SuccinctView, node: int, pos: int)
    requires
        nodes_closed(t),
        0 <= pos,
        0 <= node < total_ones(t.label_bitmap),
        ones_before(t.label_bitmap, pos) == node,
        walk_tail_scan(t, node, pos) is Some,
    ensures
        trie_tail_scan(t, node, pos) == walk_tail_scan(t, node, pos)->0,
    decreases 64 * t.label_bitmap.len() - pos,
{
    let bm = t.label_bitmap;
    lemma_closed_position(bm, node, pos);
    if bit_at(bm, pos) == 0 && node <= pos && pos - node < t.labels.len() && t.labels[pos - node]
        != PREFIX_LABEL && t.labels[pos - node] != ROOT_LABEL {
        lemma_tail_scans_agree(t, node, pos + 1);
    }
}

/// Along the key, both walks take the same steps while the nodes are
/// closed.
proof fn lemma_walks_agree_at(t: SuccinctView, key: Seq<u8>, i: int, node: int, pos: int)
    requires
        nodes_closed(t),
        64 * t.label_bitmap.len() <= usize::MAX,
        0 <= i,
        0 <= pos,
        0 <= node < total_ones(t.label_bitmap),
        ones_before(t.label_bitmap, pos) == node,
        walk_scan(t, key, i, node, pos) is Some,
    ensures
        trie_scan(t, key, i, node, pos) == walk_scan(t, key, i, node, pos)->0,
    decreases key.len() - i, 64 * t.label_bitmap.len() - pos,
{
    let bm = t.label_bitmap;
    if i >= key.len() {
        if bit_at(t.leaves, node) == 0 {
            lemma_tail_scans_agree(t, node, pos);
        }
    } else {
        lemma_closed_position(bm, node, pos);
        if bit_at(bm, pos) == 0 && node <= pos && pos - node < t.labels.len() {
            let label = t.labels[pos - node];
            let c = key[i];
            lemma_ones_before_monotone(bm, 0, pos);
            let child = zeros_before(bm, pos + 1);
            assert(zeros_or_none(bm, pos + 1) == child);
            assert(count_zeros_at(bm, pos + 1) == child);
            assert(child < total_ones(bm));
            assert(child >= 1);
            if label == PREFIX_LABEL {
            } else if label == ROOT_LABEL && c == 0x2e && bit_at(t.leaves, child) != 0 {
            } else if label == c {
                lemma_select_pos(bm, child - 1);
                let p = select_pos(bm, child - 1);
                assert(select_at(bm, child - 1) == Some(p as usize));
                assert(children_start(bm, child) == Some(p + 1));
                assert(ones_before(bm, p + 1) == ones_before(bm, p) + bit_at(bm, p));
                lemma_walks_agree_at(t, key, i + 1, child, p + 1);
            } else {
                lemma_walks_agree_at(t, key, i, node, pos + 1);
            }
        }
    }
}

/// The rule-set matcher and the GeoSite matcher agree: on a trie whose
/// nodes are closed, wherever the GeoSite walk for a key ends, the rule-set
/// walk gives the same answer.
pub proof fn lemma_matcher_walks_agree(t: SuccinctView, key: Seq<u8>)
    requires
        nodes_closed(t),
        64 * t.label_bitmap.len() <= usize::MAX,
    ensures
        walk_scan(t, key, 0, 0, 0) matches Some(b) ==> trie_scan(t, key, 0, 0, 0) == b,
{
    if walk_scan(t, key, 0, 0, 0) is Some {
        lemma_walks_agree_at(t, key, 0, 0, 0);
    }
}

/// Each edge with a prefix or a root label leads to a leaf: such a label
/// ends a key, as where the set was built from domains and suffixes.
pub open spec fn labels_end_keys(t: SuccinctView) -> bool {
    let bm = t.label_bitmap;
    forall|q: int|
        0 <= q < 64 * bm.len() && #[trigger] bit_at(bm, q) == 0 && ones_before(bm, q) <= q && q - ones_before(
            bm,
            q,
        ) < t.labels.len() && (t.labels[q - ones_before(bm, q)] == PREFIX_LABEL || t.labels[q
            - ones_before(bm, q)] == ROOT_LABEL) ==> bit_at(t.leaves, zeros_before(bm, q + 1)) != 0
}

/// Key `k` of the set makes the walk match `key`: it is `key` itself; or a
/// prefix label after bytes that `key` starts with; or a root label after
/// `key`, or after bytes that `key` starts with followed by `.`.
pub open spec fn key_covers(key: Seq<u8>, k: Seq<u8>) -> bool {
    ||| k == key
    ||| k.len() >= 1 && k.last() == PREFIX_LABEL && k.len() - 1 <= key.len() && key.subrange(
        0,
        k.len() - 1,
    ) == k.drop_last()
    ||| k.len() >= 1 && k.last() == ROOT_LABEL && k.drop_last() == key
    ||| k.len() >= 1 && k.last() == ROOT_LABEL && k.len() - 1 < key.len() && key.subrange(0, k.len() - 1)
        == k.drop_last() && key[k.len() - 1] == 0x2e
}

/// A key of the keys `a` is one of `a + b`, and one of `b` too.
proof fn lemma_concat_contains(a: Seq<Seq<u8>>, b: Seq<Seq<u8>>, k: Seq<u8>)
    ensures
        a.contains(k) ==> (a + b).contains(k),
        b.contains(k) ==> (a + b).contains(k),
{
    if a.contains(k) {
        let m = choose|m: int| 0 <= m < a.len() && a[m] == k;
        assert((a + b)[m] == k);
    }
    if b.contains(k) {
        let m = choose|m: int| 0 <= m < b.len() && b[m] == k;
        assert((a + b)[a.len() + m] == k);
    }
}

/// Where the walk past the key meets a prefix or a root label among the
/// edges from `pos` on, the set holds the prefix followed by that label.
proof fn lemma_tail_label_key(t: SuccinctView, node: int, pos: int, prefix: Seq<u8>, depth: nat)
    requires
        labels_end_keys(t),
        0 <= pos,
        ones_before(t.label_bitmap, pos) == node,
        edge_keys(t, node, pos, prefix, depth) is Some,
        walk_tail_scan(t, node, pos) == Some(true),
    ensures
        edge_keys(t, node, pos, prefix, depth)->0.contains(prefix.push(PREFIX_LABEL))
            || edge_keys(t, node, pos, prefix, depth)->0.contains(prefix.push(ROOT_LABEL)),
    decreases 64 * t.label_bitmap.len() - pos,
{
    let bm = t.label_bitmap;
    let label = t.labels[pos - node];
    let child = zeros_or_none(bm, pos + 1);
    let cpos = select_pos(bm, child - 1) + 1;
    let first = subtree_keys(t, child, cpos, prefix.push(label), (depth - 1) as nat)->0;
    let rest = edge_keys(t, node, pos + 1, prefix, depth)->0;
    assert(bitmap_bit(bm, pos) == 0);
    lemma_ones_before_monotone(bm, 0, pos);
    if label == PREFIX_LABEL || label == ROOT_LABEL {
        assert(bit_at(bm, pos) == 0);
        assert(bit_at(t.leaves, child) != 0);
        assert(first[0] == prefix.push(label));
        assert(first.contains(prefix.push(label)));
        lemma_concat_contains(first, rest, prefix.push(label));
    } else {
        assert(ones_before(bm, pos + 1) == ones_before(bm, pos) + bit_at(bm, pos));
        lemma_tail_label_key(t, node, pos + 1, prefix, depth);
        lemma_concat_contains(first, rest, prefix.push(PREFIX_LABEL));
        lemma_concat_contains(first, rest, prefix.push(ROOT_LABEL));
    }
}

/// Where the walk matches from the start of node `node`, a key below it
/// covers the key walked.
proof fn lemma_subtree_covers(t: SuccinctView, key: Seq<u8>, i: int, node: int, pos: int, depth: nat)
    requires
        labels_end_keys(t),
        0 <= i <= key.len(),
        0 <= pos,
        ones_before(t.label_bitmap, pos) == node,
        subtree_keys(t, node, pos, key.subrange(0, i), depth) is Some,
        walk_scan(t, key, i, node, pos) == Some(true),
    ensures
        exists|k: Seq<u8>|
            #[trigger] subtree_keys(t, node, pos, key.subrange(0, i), depth)->0.contains(k) && key_covers(key, k),
    decreases key.len() - i, 64 * t.label_bitmap.len() - pos, 1nat,
{
    let prefix = key.subrange(0, i);
    let below = edge_keys(t, node, pos, prefix, depth)->0;
    let all = subtree_keys(t, node, pos, prefix, depth)->0;
    if bit_at(t.leaves, node) != 0 {
        assert(all == seq![prefix] + below);
    } else {
        assert(all == below);
    }
    if i >= key.len() {
        assert(prefix =~= key);
        if bit_at(t.leaves, node) != 0 {
            assert(all[0] == prefix);
            assert(all.contains(all[0]));
            assert(key_covers(key, all[0]));
        } else {
            lemma_tail_label_key(t, node, pos, prefix, depth);
            if below.contains(prefix.push(PREFIX_LABEL)) {
                let k = prefix.push(PREFIX_LABEL);
                assert(k.drop_last() =~= prefix);
                assert(key.subrange(0, k.len() - 1) =~= prefix);
                assert(key_covers(key, k));
                assert(all.contains(k));
            } else {
                let k = prefix.push(ROOT_LABEL);
                assert(k.drop_last() =~= prefix);
                assert(key_covers(key, k));
                assert(all.contains(k));
            }
        }
    } else {
        lemma_edges_cover(t, key, i, node, pos, depth);
        let k = choose|k: Seq<u8>| #[trigger] below.contains(k) && key_covers(key, k);
        if bit_at(t.leaves, node) != 0 {
            lemma_concat_contains(seq![prefix], below, k);
        }
        assert(all.contains(k));
    }
}

/// Where the walk along `key` from byte `i` matches among the edges of
/// `node` from `pos` on, a key below those edges covers the key walked.
proof fn lemma_edges_cover(t: SuccinctView, key: Seq<u8>, i: int, node: int, pos: int, depth: nat)
    requires
        labels_end_keys(t),
        0 <= i < key.len(),
        0 <= pos,
        ones_before(t.label_bitmap, pos) == node,
        edge_keys(t, node, pos, key.subrange(0, i), depth) is Some,
        walk_scan(t, key, i, node, pos) == Some(true),
    ensures
        exists|k: Seq<u8>|
            #[trigger] edge_keys(t, node, pos, key.subrange(0, i), depth)->0.contains(k) && key_covers(key, k),
    decreases key.len() - i, 64 * t.label_bitmap.len() - pos, 0nat,
{
    let bm = t.label_bitmap;
    let prefix = key.subrange(0, i);
    let label = t.labels[pos - node];
    let c = key[i];
    let child = zeros_or_none(bm, pos + 1);
    let cpos = select_pos(bm, child - 1) + 1;
    let first = subtree_keys(t, child, cpos, prefix.push(label), (depth - 1) as nat)->0;
    let rest = edge_keys(t, node, pos + 1, prefix, depth)->0;
    let all = edge_keys(t, node, pos, prefix, depth)->0;
    assert(bitmap_bit(bm, pos) == 0);
    assert(all == first + rest);
    lemma_ones_before_monotone(bm, 0, pos);
    if label == PREFIX_LABEL || (label == ROOT_LABEL && c == 0x2e && bit_at(t.leaves, child) != 0) {
        assert(bit_at(bm, pos) == 0);
        assert(bit_at(t.leaves, child) != 0);
        let k = prefix.push(label);
        assert(first[0] == k);
        assert(first.contains(k));
        lemma_concat_contains(first, rest, k);
        assert(k.drop_last() =~= prefix);
        assert(key_covers(key, k));
    } else if label == c {
        lemma_select_pos(bm, child - 1);
        assert(ones_before(bm, cpos) == ones_before(bm, cpos - 1) + bit_at(bm, cpos - 1));
        assert(prefix.push(label) =~= key.subrange(0, i + 1));
        lemma_subtree_covers(t, key, i + 1, child, cpos, (depth - 1) as nat);
        let k = choose|k: Seq<u8>| #[trigger] first.contains(k) && key_covers(key, k);
        lemma_concat_contains(first, rest, k);
    } else {
        assert(ones_before(bm, pos + 1) == ones_before(bm, pos) + bit_at(bm, pos));
        lemma_edges_cover(t, key, i, node, pos + 1, depth);
        let k = choose|k: Seq<u8>| #[trigger] rest.contains(k) && key_covers(key, k);
        lemma_concat_contains(first, rest, k);
    }
}

/// Every key that the walk matches is covered by a key of the set, where
/// prefix and root labels end keys: the key itself is in the set, or a key
/// of the set is a prefix label after bytes that the key starts with, or a
/// root label after the key or after bytes that it starts with followed by
/// `.`. This is the converse of `lemma_listed_keys_are_matched`.
pub proof fn lemma_matched_keys_are_covered(t: SuccinctView, key: Seq<u8>)
    requires
        keys_defined(t),
        labels_end_keys(t),
        walk_scan(t, key, 0, 0, 0) == Some(true),
    ensures
        exists|k: Seq<u8>| #[trigger] trie_keys(t).contains(k) && key_covers(key, k),
{
    let depth = choose|depth: nat| #[trigger] subtree_keys(t, 0, 0, Seq::empty(), depth) is Some;
    assert(key.subrange(0, 0) =~= Seq::<u8>::empty());
    lemma_subtree_covers(t, key, 0, 0, 0, depth);
    let k = choose|k: Seq<u8>|
        #[trigger] subtree_keys(t, 0, 0, key.subrange(0, 0), depth)->0.contains(k) && key_covers(key, k);
    assert(trie_keys(t).contains(k));
}

/// The lists that `list` returns are fixed by the set they list: two lists
/// that each hold the byte strings of one set, sorted and once each, hold
/// the same strings in the same order. So two calls of `list` on one rule
/// set give equal lists.
pub proof fn lemma_lists_determined(v: Seq<String>, w: Seq<String>, set: Set<Seq<u8>>)
    requires
        lists_sorted(v, set),
        lists_sorted(w, set),
    ensures
        v.len() == w.len(),
        forall|i: int| 0 <= i < v.len() ==> #[trigger] v[i]@ == w[i]@,
{
    assert forall|e: Seq<u8>| string_bytes(v).contains(e) <==> string_bytes(w).contains(e) by {
        assert(string_bytes(v).contains(e) <==> set.contains(e));
        assert(string_bytes(w).contains(e) <==> set.contains(e));
    }
    crate::order::lemma_sorted_strict_unique(string_bytes(v), string_bytes(w));
    assert(string_bytes(v).len() == v.len());
    assert(string_bytes(w).len() == w.len());
    assert forall|i: int| 0 <= i < v.len() implies #[trigger] v[i]@ == w[i]@ by {
        assert(string_bytes(v)[i] == encode_utf8(v[i]@));
        assert(string_bytes(w)[i] == encode_utf8(w[i]@));
        lemma_encode_valid(v[i]@);
        lemma_encode_valid(w[i]@);
    }
}

/// Once the key is down to its last byte, a prefix or a root label, the
/// walk from `pos` matches only at an edge from `pos` on that carries such a
/// label.
proof fn lemma_tail_scan_label(t: SuccinctView, k: Seq<u8>, node: int, pos: int)
    requires
        k.len() > 0,
        k.last() == PREFIX_LABEL || k.last() == ROOT_LABEL,
        walk_scan(t, k, k.len() - 1, node, pos) == Some(true),
    ensures
        walk_tail_scan(t, node, pos) == Some(true),
    decreases 64 * t.label_bitmap.len() - pos,
{
    let bm = t.label_bitmap;
    if bitmap_bit(bm, pos) == 0 && node <= pos && pos - node < t.labels.len() {
        let label = t.labels[pos - node];
        if label != PREFIX_LABEL && label != ROOT_LABEL {
            lemma_tail_scan_label(t, k, node, pos + 1);
        }
    }
}

/// Where the walk along a key that ends with a prefix or a root label
/// matches, the walk along the key without that label matches too: either
/// both stop at the same match before it, or the shorter key ends at a node
/// that has an edge with such a label.
proof fn lemma_walk_label_tail(t: SuccinctView, w: Seq<u8>, c: u8, i: int, node: int, pos: int)
    requires
        c == PREFIX_LABEL || c == ROOT_LABEL,
        0 <= i <= w.len(),
        walk_scan(t, w.push(c), i, node, pos) == Some(true),
    ensures
        walk_scan(t, w, i, node, pos) == Some(true),
    decreases w.len() - i, 64 * t.label_bitmap.len() - pos,
{
    let k = w.push(c);
    let bm = t.label_bitmap;
    if i == w.len() {
        assert(k.last() == c);
        lemma_tail_scan_label(t, k, node, pos);
    } else {
        assert(k[i] == w[i]);
        if bitmap_bit(bm, pos) == 0 && node <= pos && pos - node < t.labels.len() {
            let label = t.labels[pos - node];
            let child = zeros_or_none(bm, pos + 1);
            if label == PREFIX_LABEL {
            } else if label == ROOT_LABEL && w[i] == 0x2e && bit_at(t.leaves, child) != 0 {
            } else if label == w[i] {
                if !(child < 1 || child - 1 >= total_ones(bm)) {
                    lemma_walk_label_tail(t, w, c, i + 1, child, select_pos(bm, child - 1) + 1);
                }
            } else {
                lemma_walk_label_tail(t, w, c, i, node, pos + 1);
            }
        }
    }
}

/// The edges of each node carry labels in ascending order, as in a trie
/// built from a sorted list of keys: of two edge positions with no set bit
/// from one to the other, the earlier has the smaller label.
pub open spec fn ascending_labels(t: SuccinctView) -> bool {
    forall|p: int, q: int|
        #![trigger zeros_before(t.label_bitmap, p), zeros_before(t.label_bitmap, q)]
        0 <= p < q && zeros_before(t.label_bitmap, q) < t.labels.len() && (forall|r: int|
            p <= r <= q ==> #[trigger] bitmap_bit(t.label_bitmap, r) == 0) ==> t.labels[zeros_before(
            t.label_bitmap,
            p,
        )] < t.labels[zeros_before(t.label_bitmap, q)]
}

/// Ascending labels are distinct.
proof fn lemma_ascending_distinct(t: SuccinctView)
    requires
        ascending_labels(t),
    ensures
        distinct_labels(t),
{
    let bm = t.label_bitmap;
    assert forall|p: int, q: int|
        #![trigger zeros_before(bm, p), zeros_before(bm, q)]
        0 <= p < q && zeros_before(bm, q) < t.labels.len() && (forall|r: int|
            p <= r <= q ==> #[trigger] bitmap_bit(bm, r) == 0) implies t.labels[zeros_before(bm, p)]
        != t.labels[zeros_before(bm, q)] by {
        assert(t.labels[zeros_before(bm, p)] < t.labels[zeros_before(bm, q)]);
    }
}

/// Of two edges of one node, the earlier has the smaller label.
proof fn lemma_label_order(t: SuccinctView, node: int, p: int, q: int)
    requires
        ascending_labels(t),
        0 <= p < q,
        ones_before(t.label_bitmap, p) == node,
        forall|r: int| p <= r <= q ==> #[trigger] bitmap_bit(t.label_bitmap, r) == 0,
        node <= q,
        q - node < t.labels.len(),
    ensures
        node <= p,
        t.labels[p - node] < t.labels[q - node],
{
    let bm = t.label_bitmap;
    lemma_ones_before_monotone(bm, 0, p);
    lemma_ones_flat(bm, p, q);
    assert(zeros_before(bm, p) == p - node);
    assert(zeros_before(bm, q) == q - node);
}

/// Where the walk past the key meets a prefix or a root label among the
/// edges from `pos` on, there is such an edge, with no set bit before it.
proof fn lemma_tail_witness(t: SuccinctView, node: int, pos: int)
    requires
        walk_tail_scan(t, node, pos) == Some(true),
    ensures
        exists|q: int|
            pos <= q && node <= q && q - node < t.labels.len() && (forall|r: int|
                pos <= r <= q ==> #[trigger] bitmap_bit(t.label_bitmap, r) == 0) && (#[trigger] t.labels[q
                - node] == PREFIX_LABEL || t.labels[q - node] == ROOT_LABEL),
    decreases 64 * t.label_bitmap.len() - pos,
{
    let bm = t.label_bitmap;
    if t.labels[pos - node] == PREFIX_LABEL || t.labels[pos - node] == ROOT_LABEL {
        assert(forall|r: int| pos <= r <= pos ==> #[trigger] bitmap_bit(bm, r) == 0);
    } else {
        lemma_tail_witness(t, node, pos + 1);
        let q = choose|q: int|
            pos + 1 <= q && node <= q && q - node < t.labels.len() && (forall|r: int|
                pos + 1 <= r <= q ==> #[trigger] bitmap_bit(bm, r) == 0) && (#[trigger] t.labels[q - node]
                == PREFIX_LABEL || t.labels[q - node] == ROOT_LABEL);
        assert(forall|r: int| pos <= r <= q ==> #[trigger] bitmap_bit(bm, r) == 0);
    }
}

/// Where the walk along key `k`, which ends in a prefix or a root label,
/// matches, the walk along a key that goes on past the bytes before that
/// label with a larger byte (for a prefix label) or with `.` (for a root
/// label) matches too, where labels are ascending and end keys.
proof fn lemma_covered_walk(t: SuccinctView, k: Seq<u8>, key: Seq<u8>, i: int, node: int, pos: int)
    requires
        ascending_labels(t),
        labels_end_keys(t),
        0 <= i <= k.len() - 1,
        0 <= pos,
        ones_before(t.label_bitmap, pos) == node,
        k.len() - 1 < key.len(),
        key.subrange(0, k.len() - 1) == k.drop_last(),
        (k.last() == PREFIX_LABEL && key[k.len() - 1] > PREFIX_LABEL) || (k.last() == ROOT_LABEL
            && key[k.len() - 1] == 0x2e),
        walk_scan(t, k, i, node, pos) == Some(true),
    ensures
        walk_scan(t, key, i, node, pos) == Some(true),
    decreases k.len() - 1 - i, 64 * t.label_bitmap.len() - pos,
{
    let bm = t.label_bitmap;
    let n = k.len() - 1;
    assert(bitmap_bit(bm, pos) == 0 && node <= pos && pos - node < t.labels.len());
    assert(bit_at(bm, pos) == 0);
    assert(ones_before(bm, pos + 1) == ones_before(bm, pos) + bit_at(bm, pos));
    let label = t.labels[pos - node];
    let child = zeros_or_none(bm, pos + 1);
    if i < n {
        assert(key[i] == key.subrange(0, n)[i]);
        assert(k[i] == k.drop_last()[i]);
        let c = k[i];
        if label == PREFIX_LABEL {
        } else if label == ROOT_LABEL && c == 0x2e && bit_at(t.leaves, child) != 0 {
        } else if label == c {
            if !(child < 1 || child - 1 >= total_ones(bm)) {
                lemma_select_pos(bm, child - 1);
                let cpos = select_pos(bm, child - 1) + 1;
                assert(ones_before(bm, cpos) == ones_before(bm, cpos - 1) + bit_at(bm, cpos - 1));
                lemma_covered_walk(t, k, key, i + 1, child, cpos);
            }
        } else {
            lemma_covered_walk(t, k, key, i, node, pos + 1);
        }
    } else {
        let c = key[n];
        let ck = k[n];
        assert(ck == k.last());
        lemma_ones_before_monotone(bm, 0, pos);
        if label == PREFIX_LABEL {
        } else if label == ROOT_LABEL {
            if ck == ROOT_LABEL {
                assert(pos + 1 <= 64 * bm.len());
                assert(child == zeros_before(bm, pos + 1));
                assert(bit_at(t.leaves, child) != 0);
            } else {
                lemma_covered_walk(t, k, key, i, node, pos + 1);
            }
        } else if label == c {
            lemma_tail_scan_label(t, k, node, pos + 1);
            lemma_tail_witness(t, node, pos + 1);
            let q = choose|q: int|
                pos + 1 <= q && node <= q && q - node < t.labels.len() && (forall|r: int|
                    pos + 1 <= r <= q ==> #[trigger] bitmap_bit(bm, r) == 0) && (#[trigger] t.labels[q
                    - node] == PREFIX_LABEL || t.labels[q - node] == ROOT_LABEL);
            assert(forall|r: int| pos <= r <= q ==> #[trigger] bitmap_bit(bm, r) == 0);
            lemma_label_order(t, node, pos, q);
        } else {
            lemma_covered_walk(t, k, key, i, node, pos + 1);
        }
    }
}

/// Every key covered by a key of the set is matched, where the labels of
/// each node ascend and prefix and root labels end keys, and no byte of the
/// key is `\r` or below. This is the converse of
/// `lemma_matched_keys_are_covered`.
pub proof fn lemma_covered_keys_are_matched(t: SuccinctView, key: Seq<u8>, k: Seq<u8>)
    requires
        keys_defined(t),
        ascending_labels(t),
        labels_end_keys(t),
        forall|j: int| 0 <= j < key.len() ==> #[trigger] key[j] > PREFIX_LABEL,
        trie_keys(t).contains(k),
        key_covers(key, k),
    ensures
        walk_scan(t, key, 0, 0, 0) == Some(true),
{
    lemma_ascending_distinct(t);
    lemma_listed_keys_are_matched(t);
    assert(walk_scan(t, k, 0, 0, 0) == Some(true));
    if k == key {
    } else if k.len() - 1 == key.len() {
        assert(key.subrange(0, key.len() as int) =~= key);
        assert(k =~= key.push(k.last()));
        lemma_walk_label_tail(t, key, k.last(), 0, 0, 0);
    } else {
        assert(k.len() - 1 < key.len());
        if k.last() == PREFIX_LABEL {
            assert(key[k.len() - 1] > PREFIX_LABEL);
        }
        lemma_covered_walk(t, k, key, 0, 0, 0);
    }
}

/// Where the labels of each node ascend, prefix and root labels end keys,
/// and no byte of the key is `\r` or below, the walk matches a key exactly
/// when a key of the set covers it.
pub proof fn lemma_matched_iff_covered(t: SuccinctView, key: Seq<u8>)
    requires
        keys_defined(t),
        ascending_labels(t),
        labels_end_keys(t),
        forall|j: int| 0 <= j < key.len() ==> #[trigger] key[j] > PREFIX_LABEL,
    ensures
        (walk_scan(t, key, 0, 0, 0) == Some(true)) <==> exists|k: Seq<u8>|
            #[trigger] trie_keys(t).contains(k) && key_covers(key, k),
{
    if walk_scan(t, key, 0, 0, 0) == Some(true) {
        lemma_matched_keys_are_covered(t, key);
    }
    if exists|k: Seq<u8>| #[trigger] trie_keys(t).contains(k) && key_covers(key, k) {
        let k = choose|k: Seq<u8>| #[trigger] trie_keys(t).contains(k) && key_covers(key, k);
        lemma_covered_keys_are_matched(t, key, k);
    }
}

/// What `contains` answers for a domain, in terms of the keys of the set:
/// where the labels of each node ascend, prefix and root labels end keys,
/// and every character of the domain lies above `\r`, the domain is matched
/// exactly when a key of the set covers its reversed bytes (the key is those
/// bytes; or a prefix label after bytes they start with; or a root label
/// after them, or after bytes they start with followed by `.`).
pub proof fn lemma_domain_matched_iff_covered(t: SuccinctView, d: Seq<char>)
    requires
        keys_defined(t),
        ascending_labels(t),
        labels_end_keys(t),
        forall|j: int| 0 <= j < d.len() ==> #[trigger] d[j] as u32 > 0x0d,
    ensures
        (domain_walk(t, d) == Some(true)) <==> exists|k: Seq<u8>|
            #[trigger] trie_keys(t).contains(k) && key_covers(encode_utf8(d.reverse()), k),
{
    let r = d.reverse();
    assert forall|j: int| 0 <= j < r.len() implies #[trigger] r[j] as u32 > 0x0d by {
        assert(r[j] == d[d.len() - 1 - j]);
    }
    crate::text::lemma_encode_above(r);
    lemma_matched_iff_covered(t, encode_utf8(r));
}

/// The text that key `k` names: its characters, reversed.
pub open spec fn key_text(k: Seq<u8>) -> Seq<char> {
    decode_utf8(k).reverse()
}

/// The shape of the keys that a set built from domains and domain suffixes
/// holds: a prefix label before a text that starts with `.`; a root label
/// before a text that does not; otherwise a domain that does not start with
/// `.`.
pub open spec fn shaped_text(x: Seq<char>) -> bool {
    &&& x.len() > 0
    &&& x[0] == '\r' ==> x.len() > 1 && x[1] == '.'
    &&& x[0] == '\n' ==> x.len() > 1 && x[1] != '.'
    &&& (x[0] != '\r' && x[0] != '\n') ==> x[0] != '.'
}

/// Every key of `t` has that shape.
pub open spec fn keys_shaped(t: SuccinctView) -> bool {
    forall|j: int| 0 <= j < trie_keys(t).len() ==> shaped_text(key_text(#[trigger] trie_keys(t)[j]))
}

/// `d` ends with `s`.
pub open spec fn ends_with(d: Seq<char>, s: Seq<char>) -> bool {
    s.len() <= d.len() && d.subrange(d.len() - s.len(), d.len() as int) == s
}

/// What a listed suffix `s` covers: where it starts with `.`, every domain
/// that ends with it; otherwise the domain itself and its subdomains.
pub open spec fn suffix_covers(s: Seq<char>, d: Seq<char>) -> bool {
    if s.len() > 0 && s[0] == '.' {
        ends_with(d, s)
    } else {
        d == s || ends_with(d, seq!['.'] + s)
    }
}

/// Domain `d` is one of the exact domains `ds` or is covered by one of the
/// suffixes `ss`.
pub open spec fn listed_covers(ds: Seq<String>, ss: Seq<String>, d: Seq<char>) -> bool {
    (exists|a: int| 0 <= a < ds.len() && #[trigger] ds[a]@ == d) || (exists|b: int|
        0 <= b < ss.len() && suffix_covers(#[trigger] ss[b]@, d))
}

/// Two texts with the same encoding are the same.
proof fn lemma_encode_injective(a: Seq<char>, b: Seq<char>)
    requires
        encode_utf8(a) == encode_utf8(b),
    ensures
        a == b,
{
    lemma_encode_valid(a);
    lemma_encode_valid(b);
}

/// A list that holds the byte strings of a set holds the string of a text
/// exactly when the set holds the text's encoding.
proof fn lemma_listed_text(v: Seq<String>, set: Set<Seq<u8>>, x: Seq<char>)
    requires
        lists_sorted(v, set),
    ensures
        (exists|a: int| 0 <= a < v.len() && #[trigger] v[a]@ == x) <==> set.contains(encode_utf8(x)),
{
    if exists|a: int| 0 <= a < v.len() && #[trigger] v[a]@ == x {
        let a = choose|a: int| 0 <= a < v.len() && #[trigger] v[a]@ == x;
        assert(string_bytes(v)[a] == encode_utf8(x));
        assert(string_bytes(v).contains(encode_utf8(x)));
    }
    if set.contains(encode_utf8(x)) {
        assert(string_bytes(v).contains(encode_utf8(x)));
        let a = choose|a: int| 0 <= a < string_bytes(v).len() && string_bytes(v)[a] == encode_utf8(x);
        assert(string_bytes(v)[a] == encode_utf8(v[a]@));
        lemma_encode_injective(v[a]@, x);
    }
}

/// The facts on one key of a set whose keys are valid UTF-8 and read back
/// unchanged.
proof fn lemma_key_facts(t: SuccinctView, j: int)
    requires
        keys_valid(t),
        forall|i: int| 0 <= i < trie_keys(t).len() ==> lossless_key(#[trigger] trie_keys(t)[i]),
        0 <= j < trie_keys(t).len(),
    ensures
        reversed_key(trie_keys(t)[j]) == encode_utf8(key_text(trie_keys(t)[j])),
        trie_keys(t)[j] == encode_utf8(key_text(trie_keys(t)[j]).reverse()),
{
    let k = trie_keys(t)[j];
    assert(valid_utf8(k));
    assert(lossless_key(k));
    assert(key_text(k).reverse() =~= decode_utf8(k));
    vstd::utf8::decode_utf8_encode_utf8(k);
}

/// A key whose encoding ends with a label byte: its text starts with that
/// label, and the key is the rest of the text, reversed and encoded, then
/// the label.
proof fn lemma_label_key(x: Seq<char>, label: u8)
    requires
        label < 0x80,
        encode_utf8(x.reverse()).len() > 0,
        encode_utf8(x.reverse()).last() == label,
    ensures
        x.len() > 0,
        x[0] as u32 == label,
        encode_utf8(x.reverse()) == encode_utf8(x.drop_first().reverse()).push(label),
{
    let r = x.reverse();
    if r.len() == 0 {
        assert(encode_utf8(r).len() == 0);
    }
    crate::text::lemma_ascii_last(r);
    assert(r.last() == x[0]);
    assert(r.drop_last() =~= x.drop_first().reverse());
}

/// The encoding of a text that starts with a character below `0x80`: that
/// byte, then the encoding of the rest.
proof fn lemma_text_head(x: Seq<char>)
    requires
        x.len() > 0,
        x[0] as u32 <= 0x7F,
    ensures
        encode_utf8(x) == seq![x[0] as u32 as u8] + encode_utf8(x.drop_first()),
{
    crate::text::lemma_ascii_head(x);
    let e = encode_utf8(x);
    assert(e =~= seq![e[0]] + e.drop_first());
}

/// Where `d` ends with `y`, the reversed encoding of `d` starts with that of
/// `y`, and what follows is the encoding of the rest, reversed.
proof fn lemma_ends_with_key(d: Seq<char>, y: Seq<char>)
    requires
        ends_with(d, y),
    ensures
        encode_utf8(d.reverse()) == encode_utf8(y.reverse()) + encode_utf8(
            d.subrange(0, d.len() - y.len()).reverse(),
        ),
{
    let m = d.subrange(0, d.len() - y.len());
    assert(d =~= m + y);
    assert(d.reverse() =~= y.reverse() + m.reverse());
    crate::text::lemma_encode_concat(y.reverse(), m.reverse());
}

/// Whether the walk matches a domain, in terms of what `list` returns: where
/// the labels of each node ascend, prefix and root labels end keys, the keys
/// are valid UTF-8 of the shape a set built from domains and suffixes has,
/// and the domain is not empty and has no character at or below `\r`, the
/// domain is matched exactly when it is a listed exact domain or a listed
/// suffix covers it.
proof fn lemma_lists_cover(t: SuccinctView, ds: Seq<String>, ss: Seq<String>, d: Seq<char>)
    requires
        keys_defined(t),
        ascending_labels(t),
        labels_end_keys(t),
        keys_valid(t),
        keys_shaped(t),
        forall|i: int| 0 <= i < trie_keys(t).len() ==> lossless_key(#[trigger] trie_keys(t)[i]),
        lists_sorted(ds, listed_domains(trie_keys(t))),
        lists_sorted(ss, listed_suffixes(trie_keys(t))),
        d.len() > 0,
        forall|j: int| 0 <= j < d.len() ==> #[trigger] d[j] as u32 > 0x0d,
    ensures
        (domain_walk(t, d) == Some(true)) <==> listed_covers(ds, ss, d),
{
    let kv = trie_keys(t);
    let key = encode_utf8(d.reverse());
    lemma_domain_matched_iff_covered(t, d);
    let dr = d.reverse();
    assert(dr.len() > 0);
    assert(d[0] as u32 > 0x0d);
    if exists|k: Seq<u8>| #[trigger] kv.contains(k) && key_covers(key, k) {
        let k = choose|k: Seq<u8>| #[trigger] kv.contains(k) && key_covers(key, k);
        lemma_covering_key_listed(t, ds, ss, d, k);
    }
    if listed_covers(ds, ss, d) {
        lemma_listed_key_covering(t, ds, ss, d);
    }
}

/// Two characters with the same number are the same.
proof fn lemma_char_eq(c: char, l: char)
    requires
        c as u32 == l as u32,
    ensures
        c == l,
{
    vstd::utf8::char_u32_cast(c, c as u32);
    vstd::utf8::char_u32_cast(l, l as u32);
}

/// The text of a key that ends with a label byte: the label, then the text
/// `y` of the entry, which the key's reversed bytes hold after the label.
proof fn lemma_label_entry(t: SuccinctView, j: int, label: u8, lc: char)
    requires
        keys_valid(t),
        forall|i: int| 0 <= i < trie_keys(t).len() ==> lossless_key(#[trigger] trie_keys(t)[i]),
        0 <= j < trie_keys(t).len(),
        (label == PREFIX_LABEL && lc == '\r') || (label == ROOT_LABEL && lc == '\n'),
        trie_keys(t)[j].len() >= 1,
        trie_keys(t)[j].last() == label,
    ensures
        key_text(trie_keys(t)[j]).len() > 0,
        key_text(trie_keys(t)[j])[0] == lc,
        labelled_at(trie_keys(t), j, label, encode_utf8(key_text(trie_keys(t)[j]).drop_first())),
        trie_keys(t)[j].drop_last() == encode_utf8(key_text(trie_keys(t)[j]).drop_first().reverse()),
{
    let k = trie_keys(t)[j];
    lemma_key_facts(t, j);
    let x = key_text(k);
    lemma_label_key(x, label);
    lemma_char_eq(x[0], lc);
    let y = x.drop_first();
    lemma_text_head(x);
    let rk = reversed_key(k);
    assert(rk == seq![label] + encode_utf8(y));
    assert(rk[0] == label);
    assert(rk.drop_first() =~= encode_utf8(y));
    assert(k.drop_last() =~= encode_utf8(y.reverse()));
}

/// A key of the set that covers the domain's reversed bytes puts the domain
/// among the exact domains or under a listed suffix.
proof fn lemma_covering_key_listed(t: SuccinctView, ds: Seq<String>, ss: Seq<String>, d: Seq<char>, k: Seq<u8>)
    requires
        keys_valid(t),
        keys_shaped(t),
        forall|i: int| 0 <= i < trie_keys(t).len() ==> lossless_key(#[trigger] trie_keys(t)[i]),
        lists_sorted(ds, listed_domains(trie_keys(t))),
        lists_sorted(ss, listed_suffixes(trie_keys(t))),
        d.len() > 0,
        forall|j: int| 0 <= j < d.len() ==> #[trigger] d[j] as u32 > 0x0d,
        trie_keys(t).contains(k),
        key_covers(encode_utf8(d.reverse()), k),
    ensures
        listed_covers(ds, ss, d),
{
    let kv = trie_keys(t);
    let key = encode_utf8(d.reverse());
    let j = choose|j: int| 0 <= j < kv.len() && kv[j] == k;
    if k == key {
        lemma_exact_key_listed(t, ds, ss, d, j);
    } else if k.last() == PREFIX_LABEL {
        lemma_prefix_key_listed(t, ds, ss, d, j);
    } else {
        lemma_root_key_listed(t, ds, ss, d, j);
    }
}

/// The domain's own reversed bytes as a key: the domain is listed exact, or
/// as a suffix where `.domain` is a prefix entry.
proof fn lemma_exact_key_listed(t: SuccinctView, ds: Seq<String>, ss: Seq<String>, d: Seq<char>, j: int)
    requires
        keys_valid(t),
        keys_shaped(t),
        forall|i: int| 0 <= i < trie_keys(t).len() ==> lossless_key(#[trigger] trie_keys(t)[i]),
        lists_sorted(ds, listed_domains(trie_keys(t))),
        lists_sorted(ss, listed_suffixes(trie_keys(t))),
        d.len() > 0,
        forall|j: int| 0 <= j < d.len() ==> #[trigger] d[j] as u32 > 0x0d,
        0 <= j < trie_keys(t).len(),
        trie_keys(t)[j] == encode_utf8(d.reverse()),
    ensures
        listed_covers(ds, ss, d),
{
    let kv = trie_keys(t);
    let k = kv[j];
    lemma_key_facts(t, j);
    let x = key_text(k);
    lemma_encode_injective(x.reverse(), d.reverse());
    assert(x =~= x.reverse().reverse());
    assert(d =~= d.reverse().reverse());
    assert(d[0] as u32 > 0x0d);
    let e = encode_utf8(d);
    crate::text::lemma_ascii_head(d);
    assert(is_exact(e));
    assert(exact_at(kv, j, e));
    assert(exact_entries(kv).contains(e));
    if labelled_entries(kv, PREFIX_LABEL).contains(dotted(e)) {
        assert(dotted(e).drop_first() =~= e);
        assert(prefix_listed(kv, dotted(e)) == e);
        assert(listed_suffixes(kv).contains(e));
        lemma_listed_text(ss, listed_suffixes(kv), d);
        let b = choose|b: int| 0 <= b < ss.len() && #[trigger] ss[b]@ == d;
        assert(d.subrange(0, d.len() as int) =~= d);
        assert(suffix_covers(ss[b]@, d));
    } else {
        assert(listed_domains(kv).contains(e));
        lemma_listed_text(ds, listed_domains(kv), d);
    }
}

/// A prefix-label key before bytes that the domain's reversed bytes start
/// with: the domain ends with the entry, which a listed suffix covers.
proof fn lemma_prefix_key_listed(t: SuccinctView, ds: Seq<String>, ss: Seq<String>, d: Seq<char>, j: int)
    requires
        keys_valid(t),
        keys_shaped(t),
        forall|i: int| 0 <= i < trie_keys(t).len() ==> lossless_key(#[trigger] trie_keys(t)[i]),
        lists_sorted(ds, listed_domains(trie_keys(t))),
        lists_sorted(ss, listed_suffixes(trie_keys(t))),
        d.len() > 0,
        forall|j: int| 0 <= j < d.len() ==> #[trigger] d[j] as u32 > 0x0d,
        0 <= j < trie_keys(t).len(),
        key_covers(encode_utf8(d.reverse()), trie_keys(t)[j]),
        trie_keys(t)[j] != encode_utf8(d.reverse()),
        trie_keys(t)[j].last() == PREFIX_LABEL,
    ensures
        listed_covers(ds, ss, d),
{
    let kv = trie_keys(t);
    let k = kv[j];
    let key = encode_utf8(d.reverse());
    lemma_label_entry(t, j, PREFIX_LABEL, '\r');
    let x = key_text(k);
    let y = x.drop_first();
    assert(shaped_text(x));
    assert(key.subrange(0, k.len() - 1) == encode_utf8(y.reverse()));
    crate::text::lemma_encoded_prefix(y.reverse(), d.reverse());
    assert(d.subrange(d.len() - y.len(), d.len() as int) =~= y) by {
        assert forall|i: int| 0 <= i < y.len() implies d.subrange(d.len() - y.len(), d.len() as int)[i]
            == y[i] by {
            assert(d.reverse()[y.len() - 1 - i] == y.reverse()[y.len() - 1 - i]);
        }
    }
    assert(ends_with(d, y));
    assert(y[0] == '.');
    lemma_text_head(y);
    let p = encode_utf8(y);
    assert(p[0] == 0x2e);
    assert(p.drop_first() =~= encode_utf8(y.drop_first()));
    let z = if exact_entries(kv).contains(p.drop_first()) {
        y.drop_first()
    } else {
        y
    };
    assert(prefix_listed(kv, p) == encode_utf8(z));
    assert(labelled_entries(kv, PREFIX_LABEL).contains(p));
    assert(listed_suffixes(kv).contains(encode_utf8(z)));
    lemma_listed_text(ss, listed_suffixes(kv), z);
    let b = choose|b: int| 0 <= b < ss.len() && #[trigger] ss[b]@ == z;
    if z == y.drop_first() {
        assert(y =~= seq!['.'] + z);
        if z.len() > 0 && z[0] == '.' {
            assert(d.subrange(d.len() - z.len(), d.len() as int) =~= y.subrange(1, y.len() as int));
        }
    }
    assert(suffix_covers(ss[b]@, d));
}

/// Where the domain's reversed bytes start with those of `y` and go on with
/// `.`, the domain ends with `.` followed by `y`.
proof fn lemma_dot_suffix(d: Seq<char>, y: Seq<char>)
    requires
        encode_utf8(y.reverse()).len() < encode_utf8(d.reverse()).len(),
        encode_utf8(d.reverse()).subrange(0, encode_utf8(y.reverse()).len() as int) == encode_utf8(
            y.reverse(),
        ),
        encode_utf8(d.reverse())[encode_utf8(y.reverse()).len() as int] == 0x2e,
    ensures
        ends_with(d, seq!['.'] + y),
{
    let key = encode_utf8(d.reverse());
    let n = encode_utf8(y.reverse()).len() as int;
    crate::text::lemma_encoded_prefix(y.reverse(), d.reverse());
    let m = d.reverse().subrange(y.len() as int, d.len() as int);
    assert(d.reverse() =~= y.reverse() + m);
    crate::text::lemma_encode_concat(y.reverse(), m);
    assert(m.len() > 0) by {
        if m.len() == 0 {
            assert(m =~= Seq::<char>::empty());
            assert(encode_utf8(m) =~= Seq::<u8>::empty());
            assert(key =~= encode_utf8(y.reverse()));
        }
    }
    assert(key[n] == encode_utf8(m)[0]);
    crate::text::lemma_ascii_head(m);
    lemma_char_eq(m[0], '.');
    let dy = seq!['.'] + y;
    assert forall|i: int| 0 <= i < dy.len() implies d.subrange(d.len() - dy.len(), d.len() as int)[i]
        == dy[i] by {
        assert(d.reverse()[dy.len() - 1 - i] == d[d.len() - dy.len() + i]);
        if i == 0 {
            assert(d.reverse()[y.len() as int] == m[0]);
        } else {
            assert(d.reverse()[y.len() - i] == y.reverse()[y.len() - i]);
        }
    }
    assert(d.subrange(d.len() - dy.len(), d.len() as int) =~= dy);
}

/// A root-label key after the domain's reversed bytes, or after bytes that
/// they start with followed by `.`: a listed root suffix covers the domain.
proof fn lemma_root_key_listed(t: SuccinctView, ds: Seq<String>, ss: Seq<String>, d: Seq<char>, j: int)
    requires
        keys_valid(t),
        keys_shaped(t),
        forall|i: int| 0 <= i < trie_keys(t).len() ==> lossless_key(#[trigger] trie_keys(t)[i]),
        lists_sorted(ds, listed_domains(trie_keys(t))),
        lists_sorted(ss, listed_suffixes(trie_keys(t))),
        d.len() > 0,
        forall|j: int| 0 <= j < d.len() ==> #[trigger] d[j] as u32 > 0x0d,
        0 <= j < trie_keys(t).len(),
        key_covers(encode_utf8(d.reverse()), trie_keys(t)[j]),
        trie_keys(t)[j] != encode_utf8(d.reverse()),
        trie_keys(t)[j].last() != PREFIX_LABEL,
    ensures
        listed_covers(ds, ss, d),
{
    let kv = trie_keys(t);
    let k = kv[j];
    let key = encode_utf8(d.reverse());
    let n = k.len() - 1;
    lemma_label_entry(t, j, ROOT_LABEL, '\n');
    let x = key_text(k);
    let y = x.drop_first();
    assert(shaped_text(x));
    assert(y[0] != '.');
    assert(labelled_entries(kv, ROOT_LABEL).contains(encode_utf8(y)));
    assert(listed_suffixes(kv).contains(encode_utf8(y)));
    lemma_listed_text(ss, listed_suffixes(kv), y);
    let b = choose|b: int| 0 <= b < ss.len() && #[trigger] ss[b]@ == y;
    if k.drop_last() == key {
        lemma_encode_injective(y.reverse(), d.reverse());
        assert(y =~= y.reverse().reverse());
        assert(d =~= d.reverse().reverse());
        assert(suffix_covers(ss[b]@, d));
    } else {
        assert(n < key.len());
        assert(key.subrange(0, n) == encode_utf8(y.reverse()));
        lemma_dot_suffix(d, y);
        assert(suffix_covers(ss[b]@, d));
    }
}

/// The key `label` after the reversed encoding of `y`, where the text of
/// key `k` is `label` then `y`.
proof fn lemma_labelled_key(k: Seq<u8>, x: Seq<char>, label: u8)
    requires
        label < 0x80,
        k == encode_utf8(x.reverse()),
        x.len() > 0,
        x[0] as u32 == label,
    ensures
        k == encode_utf8(x.drop_first().reverse()).push(label),
{
    let y = x.drop_first();
    assert(x.reverse() =~= y.reverse().push(x[0]));
    crate::text::lemma_encode_utf8_push(y.reverse(), x[0]);
    crate::text::lemma_scalar_shape(x[0] as u32);
    assert(encode_utf8(x.reverse()) =~= encode_utf8(y.reverse()).push(label));
}

/// Where `d` ends with `y`, a key of `y`'s reversed encoding then a label is
/// covered as a prefix of the domain's reversed bytes.
proof fn lemma_prefix_cover(d: Seq<char>, y: Seq<char>, k: Seq<u8>)
    requires
        ends_with(d, y),
        k == encode_utf8(y.reverse()).push(PREFIX_LABEL),
    ensures
        key_covers(encode_utf8(d.reverse()), k),
{
    lemma_ends_with_key(d, y);
    let key = encode_utf8(d.reverse());
    let w = encode_utf8(y.reverse());
    assert(k.drop_last() =~= w);
    assert(key.subrange(0, w.len() as int) =~= w);
}

/// A domain listed as exact, or covered by a listed suffix, has its reversed
/// bytes covered by a key of the set.
proof fn lemma_listed_key_covering(t: SuccinctView, ds: Seq<String>, ss: Seq<String>, d: Seq<char>)
    requires
        keys_valid(t),
        keys_shaped(t),
        forall|i: int| 0 <= i < trie_keys(t).len() ==> lossless_key(#[trigger] trie_keys(t)[i]),
        lists_sorted(ds, listed_domains(trie_keys(t))),
        lists_sorted(ss, listed_suffixes(trie_keys(t))),
        d.len() > 0,
        forall|j: int| 0 <= j < d.len() ==> #[trigger] d[j] as u32 > 0x0d,
        listed_covers(ds, ss, d),
    ensures
        exists|k: Seq<u8>| #[trigger] trie_keys(t).contains(k) && key_covers(encode_utf8(d.reverse()), k),
{
    let kv = trie_keys(t);
    let key = encode_utf8(d.reverse());
    if exists|a: int| 0 <= a < ds.len() && #[trigger] ds[a]@ == d {
        lemma_listed_text(ds, listed_domains(kv), d);
        assert(exact_entries(kv).contains(encode_utf8(d)));
        let j = choose|j: int| #[trigger] exact_at(kv, j, encode_utf8(d));
        lemma_key_facts(t, j);
        lemma_encode_injective(key_text(kv[j]), d);
        assert(kv.contains(kv[j]));
        assert(key_covers(key, kv[j]));
    } else {
        let b = choose|b: int| 0 <= b < ss.len() && suffix_covers(#[trigger] ss[b]@, d);
        let z = ss[b]@;
        lemma_listed_text(ss, listed_suffixes(kv), z);
        let ez = encode_utf8(z);
        assert(listed_suffixes(kv).contains(ez));
        if labelled_entries(kv, ROOT_LABEL).contains(ez) {
            let j = choose|j: int| #[trigger] labelled_at(kv, j, ROOT_LABEL, ez);
            lemma_key_facts(t, j);
            let k = kv[j];
            let x = key_text(k);
            assert(shaped_text(x));
            crate::text::lemma_ascii_head(x);
            lemma_char_eq(x[0], '\n');
            lemma_encode_injective(x.drop_first(), z);
            lemma_labelled_key(k, x, ROOT_LABEL);
            assert(kv.contains(k));
            assert(z[0] != '.');
            if d == z {
                assert(k.drop_last() =~= key);
                assert(key_covers(key, k));
            } else {
                let dz = seq!['.'] + z;
                lemma_ends_with_key(d, dz);
                assert(dz.reverse() =~= z.reverse().push('.'));
                crate::text::lemma_encode_utf8_push(z.reverse(), '.');
                crate::text::lemma_scalar_shape('.' as u32);
                let w = encode_utf8(z.reverse());
                assert(encode_utf8(dz.reverse()) =~= w.push(0x2e));
                assert(k.drop_last() =~= w);
                assert(key.subrange(0, w.len() as int) =~= w);
                assert(key[w.len() as int] == 0x2e);
                assert(key_covers(key, k));
            }
        } else {
            let p = choose|p: Seq<u8>|
                labelled_entries(kv, PREFIX_LABEL).contains(p) && #[trigger] prefix_listed(kv, p) == ez;
            let j = choose|j: int| #[trigger] labelled_at(kv, j, PREFIX_LABEL, p);
            lemma_key_facts(t, j);
            let k = kv[j];
            let x = key_text(k);
            assert(shaped_text(x));
            crate::text::lemma_ascii_head(x);
            lemma_char_eq(x[0], '\r');
            let y = x.drop_first();
            assert(p == encode_utf8(y));
            lemma_labelled_key(k, x, PREFIX_LABEL);
            assert(kv.contains(k));
            assert(y[0] == '.');
            lemma_text_head(y);
            assert(p.drop_first() =~= encode_utf8(y.drop_first()));
            if p[0] == 0x2e && exact_entries(kv).contains(p.drop_first()) {
                lemma_encode_injective(y.drop_first(), z);
                let i = choose|i: int| #[trigger] exact_at(kv, i, ez);
                lemma_key_facts(t, i);
                lemma_encode_injective(key_text(kv[i]), z);
                assert(shaped_text(key_text(kv[i])));
                crate::text::lemma_ascii_head(z);
                assert(z[0] != '.');
                assert(y =~= seq!['.'] + z);
                if d == z {
                    assert(kv.contains(kv[i]));
                    assert(key_covers(key, kv[i]));
                } else {
                    lemma_prefix_cover(d, y, k);
                }
            } else {
                lemma_encode_injective(y, z);
                lemma_prefix_cover(d, y, k);
            }
        }
    }
}

/// Where labels ascend, the keys below the edges of a node from `q` on come
/// in strictly ascending order.
proof fn lemma_edges_sorted(t: SuccinctView, node: int, q: int, prefix: Seq<u8>, depth: nat)
    requires
        ascending_labels(t),
        0 <= q,
        node == ones_before(t.label_bitmap, q),
        edge_keys(t, node, q, prefix, depth) is Some,
    ensures
        sorted_strict(edge_keys(t, node, q, prefix, depth)->0),
    decreases depth, 64 * t.label_bitmap.len() - q, 0nat,
{
    let bm = t.label_bitmap;
    lemma_ascending_distinct(t);
    if bitmap_bit(bm, q) == 0 {
        let i = prefix.len() as int;
        let label = t.labels[q - node];
        let child = zeros_or_none(bm, q + 1);
        let cpos = select_pos(bm, child - 1) + 1;
        lemma_select_pos(bm, child - 1);
        lemma_ones_before_monotone(bm, cpos - 1, cpos);
        assert(ones_before(bm, cpos) == ones_before(bm, cpos - 1) + bit_at(bm, cpos - 1));
        assert(ones_before(bm, q + 1) == ones_before(bm, q) + bit_at(bm, q));
        let pl = prefix.push(label);
        lemma_subtree_sorted(t, child, cpos, pl, (depth - 1) as nat);
        lemma_subtree_found(t, child, cpos, pl, (depth - 1) as nat);
        lemma_edges_sorted(t, node, q + 1, prefix, depth);
        lemma_edges_found(t, node, q + 1, prefix, depth);
        let first = subtree_keys(t, child, cpos, pl, (depth - 1) as nat)->0;
        let rest = edge_keys(t, node, q + 1, prefix, depth)->0;
        let all = edge_keys(t, node, q, prefix, depth)->0;
        assert(all == first + rest);
        assert forall|a: int, b: int| 0 <= a < b < all.len() implies crate::order::lex_lt(
            #[trigger] all[a],
            #[trigger] all[b],
        ) by {
            if b < first.len() {
                assert(all[a] == first[a] && all[b] == first[b]);
            } else if a >= first.len() {
                assert(all[a] == rest[a - first.len()] && all[b] == rest[b - first.len()]);
            } else {
                let f = first[a];
                let r = rest[b - first.len()];
                assert(all[a] == f && all[b] == r);
                assert(first.contains(f));
                assert(rest.contains(r));
                assert(f.subrange(0, i + 1) == pl);
                assert(f[i] == pl[i]);
                assert(f.subrange(0, i) =~= pl.subrange(0, i));
                assert(pl.subrange(0, i) =~= prefix);
                let e = choose|e: int|
                    q + 1 <= e && (forall|r2: int| q + 1 <= r2 <= e ==> #[trigger] bitmap_bit(bm, r2) == 0)
                        && node <= e && e - node < t.labels.len() && r[i] == t.labels[e - node]
                        && walk_scan(t, r, i, node, e) == Some(true);
                assert(forall|r2: int| q <= r2 <= e ==> #[trigger] bitmap_bit(bm, r2) == 0);
                lemma_label_order(t, node, q, e);
                crate::order::lemma_lex_differ(f, r, i);
            }
        }
    }
}

/// Where labels ascend, the keys below a node come in strictly ascending
/// order: the node's own key first, then the longer keys below its edges.
proof fn lemma_subtree_sorted(t: SuccinctView, node: int, pos: int, prefix: Seq<u8>, depth: nat)
    requires
        ascending_labels(t),
        0 <= pos,
        node == ones_before(t.label_bitmap, pos),
        subtree_keys(t, node, pos, prefix, depth) is Some,
    ensures
        sorted_strict(subtree_keys(t, node, pos, prefix, depth)->0),
    decreases depth, 64 * t.label_bitmap.len() - pos, 1nat,
{
    lemma_ascending_distinct(t);
    lemma_edges_sorted(t, node, pos, prefix, depth);
    lemma_edges_found(t, node, pos, prefix, depth);
    let below = edge_keys(t, node, pos, prefix, depth)->0;
    let all = subtree_keys(t, node, pos, prefix, depth)->0;
    if bit_at(t.leaves, node) != 0 {
        assert(all == seq![prefix] + below);
        assert forall|a: int, b: int| 0 <= a < b < all.len() implies crate::order::lex_lt(
            #[trigger] all[a],
            #[trigger] all[b],
        ) by {
            if a == 0 {
                let k = below[b - 1];
                assert(all[b] == k);
                assert(below.contains(k));
                crate::order::lemma_lex_prefix(prefix, k);
            } else {
                assert(all[a] == below[a - 1] && all[b] == below[b - 1]);
            }
        }
    } else {
        assert(all == below);
    }
}

/// Where the labels of each node ascend, the keys of the set come in
/// strictly ascending byte order, each once: `keys` lists them sorted.
pub proof fn lemma_keys_ascending(t: SuccinctView)
    requires
        keys_defined(t),
        ascending_labels(t),
    ensures
        sorted_strict(trie_keys(t)),
{
    let depth = choose|depth: nat| #[trigger] subtree_keys(t, 0, 0, Seq::empty(), depth) is Some;
    lemma_subtree_sorted(t, 0, 0, Seq::empty(), depth);
}

/// Key `k` is read back unchanged where it is valid UTF-8: what
/// `String::from_utf8_lossy` gives of it is the text it encodes.
pub open spec fn lossless_key(k: Seq<u8>) -> bool {
    valid_utf8(k) ==> lossy_decode(k) == decode_utf8(k)
}

/// Every key of `t` is valid UTF-8.
pub open spec fn keys_valid(t: SuccinctView) -> bool {
    forall|j: int| 0 <= j < trie_keys(t).len() ==> valid_utf8(#[trigger] trie_keys(t)[j])
}

/// A domain whose reversed bytes name an exact key is matched.
proof fn lemma_exact_entry_matched(t: SuccinctView, s: Seq<char>)
    requires
        keys_defined(t),
        distinct_labels(t),
        keys_valid(t),
        forall|j: int| 0 <= j < trie_keys(t).len() ==> lossless_key(#[trigger] trie_keys(t)[j]),
        exact_entries(trie_keys(t)).contains(encode_utf8(s)),
    ensures
        domain_walk(t, s) == Some(true),
{
    let kv = trie_keys(t);
    let j = choose|j: int| #[trigger] exact_at(kv, j, encode_utf8(s));
    let k = kv[j];
    assert(lossless_key(k));
    assert(valid_utf8(k));
    let cs = decode_utf8(k).reverse();
    lemma_encode_valid(s);
    lemma_encode_valid(cs);
    assert(s == cs);
    assert(s.reverse() =~= decode_utf8(k));
    vstd::utf8::decode_utf8_encode_utf8(k);
    lemma_listed_keys_are_matched(t);
    assert(kv.contains(k));
}

/// A domain whose reversed bytes follow a prefix or a root label in a key
/// is matched.
proof fn lemma_labelled_entry_matched(t: SuccinctView, s: Seq<char>, label: u8, lc: char)
    requires
        keys_defined(t),
        distinct_labels(t),
        keys_valid(t),
        forall|j: int| 0 <= j < trie_keys(t).len() ==> lossless_key(#[trigger] trie_keys(t)[j]),
        (label == PREFIX_LABEL && lc == '\r') || (label == ROOT_LABEL && lc == '\n'),
        labelled_entries(trie_keys(t), label).contains(encode_utf8(s)),
    ensures
        domain_walk(t, s) == Some(true),
{
    let kv = trie_keys(t);
    let j = choose|j: int| #[trigger] labelled_at(kv, j, label, encode_utf8(s));
    let k = kv[j];
    assert(lossless_key(k));
    assert(valid_utf8(k));
    let cs = decode_utf8(k).reverse();
    let rk = encode_utf8(cs);
    let ls = seq![lc] + s;
    assert(encode_utf8(ls) == encode_scalar(lc as u32) + encode_utf8(s)) by {
        assert(ls[0] == lc);
        assert(ls.drop_first() =~= s);
    }
    let v = lc as u32;
    assert(v == label as u32);
    assert((v & 0x7F) as u8 == label) by (bit_vector)
        requires
            v == label as u32,
            label < 0x80u8,
    ;
    assert(encode_scalar(v) =~= seq![label]);
    assert(rk =~= encode_utf8(ls));
    lemma_encode_valid(ls);
    lemma_encode_valid(cs);
    assert(cs == ls);
    assert(decode_utf8(k) =~= s.reverse().push(lc)) by {
        assert(cs.reverse() =~= decode_utf8(k));
        assert(ls.reverse() =~= s.reverse().push(lc));
    }
    vstd::utf8::decode_utf8_encode_utf8(k);
    crate::text::lemma_encode_utf8_push(s.reverse(), lc);
    assert(k =~= encode_utf8(s.reverse()).push(label));
    lemma_listed_keys_are_matched(t);
    assert(kv.contains(k));
    lemma_walk_label_tail(t, encode_utf8(s.reverse()), label, 0, 0, 0);
}

/// Each domain that the lists hold is matched, where the edges of each node
/// carry distinct labels and every key is valid UTF-8 that reads back
/// unchanged.
proof fn lemma_listed_strings_matched(t: SuccinctView, s: Seq<char>)
    requires
        keys_defined(t),
        distinct_labels(t),
        keys_valid(t),
        forall|j: int| 0 <= j < trie_keys(t).len() ==> lossless_key(#[trigger] trie_keys(t)[j]),
        listed_domains(trie_keys(t)).contains(encode_utf8(s)) || listed_suffixes(trie_keys(t)).contains(
            encode_utf8(s),
        ),
    ensures
        domain_walk(t, s) == Some(true),
{
    let kv = trie_keys(t);
    let x = encode_utf8(s);
    if listed_domains(kv).contains(x) {
        lemma_exact_entry_matched(t, s);
    } else if labelled_entries(kv, ROOT_LABEL).contains(x) {
        lemma_labelled_entry_matched(t, s, ROOT_LABEL, '\n');
    } else {
        let p = choose|p: Seq<u8>| labelled_entries(kv, PREFIX_LABEL).contains(p) && #[trigger] prefix_listed(kv, p) == x;
        if p.len() > 0 && p[0] == 0x2e && exact_entries(kv).contains(p.drop_first()) {
            lemma_exact_entry_matched(t, s);
        } else {
            lemma_labelled_entry_matched(t, s, PREFIX_LABEL, '\r');
        }
    }
}

// ------------------------------------------------------------------------
// The depth of the walk over the keys.
// ------------------------------------------------------------------------

/// The bitmap position of the first edge of node `n`.
pub open spec fn node_start(bm: Seq<u64>, n: int) -> int {
    if n == 0 {
        0
    } else {
        select_pos(bm, n - 1) + 1
    }
}

/// Position `q` is an edge of node `n`: no set bit from the node's first
/// edge up to it.
pub open spec fn edge_of(bm: Seq<u64>, n: int, q: int) -> bool {
    node_start(bm, n) <= q && forall|r: int| node_start(bm, n) <= r <= q ==> #[trigger] bitmap_bit(bm, r) == 0
}

/// Node `m` lies `k` edges below node `n`.
pub open spec fn reaches(bm: Seq<u64>, n: int, m: int, k: nat) -> bool
    decreases k,
{
    if k == 0 {
        n == m
    } else {
        exists|q: int| #[trigger] edge_of(bm, n, q) && reaches(bm, zeros_or_none(bm, q + 1), m, (k - 1) as nat)
    }
}

/// The keys below node `n` are found within `depth` edges.
pub open spec fn found_within(t: SuccinctView, n: int, depth: nat) -> bool {
    subtree_keys(t, n, node_start(t.label_bitmap, n), Seq::empty(), depth) is Some
}

/// Whether the keys are found does not depend on the prefix put before them.
proof fn lemma_subtree_prefix(t: SuccinctView, n: int, pos: int, p1: Seq<u8>, p2: Seq<u8>, depth: nat)
    ensures
        (subtree_keys(t, n, pos, p1, depth) is Some) == (subtree_keys(t, n, pos, p2, depth) is Some),
    decreases depth, 64 * t.label_bitmap.len() - pos, 1nat,
{
    lemma_edges_prefix(t, n, pos, p1, p2, depth);
}

proof fn lemma_edges_prefix(t: SuccinctView, n: int, q: int, p1: Seq<u8>, p2: Seq<u8>, depth: nat)
    ensures
        (edge_keys(t, n, q, p1, depth) is Some) == (edge_keys(t, n, q, p2, depth) is Some),
    decreases depth, 64 * t.label_bitmap.len() - q, 0nat,
{
    let bm = t.label_bitmap;
    if bitmap_bit(bm, q) == 0 && n <= q && q - n < t.labels.len() {
        let label = t.labels[q - n];
        let child = zeros_or_none(bm, q + 1);
        if !(child < 1 || child - 1 >= total_ones(bm) || depth == 0) {
            let cpos = select_pos(bm, child - 1) + 1;
            lemma_subtree_prefix(t, child, cpos, p1.push(label), p2.push(label), (depth - 1) as nat);
            lemma_edges_prefix(t, n, q + 1, p1, p2, depth);
        }
    }
}

/// Along the edges of a node whose keys are found, each child's keys are
/// found one edge less deep.
proof fn lemma_edge_run(t: SuccinctView, n: int, pos: int, p: Seq<u8>, depth: nat, q: int)
    requires
        edge_keys(t, n, pos, p, depth) is Some,
        pos <= q,
        forall|r: int| pos <= r <= q ==> #[trigger] bitmap_bit(t.label_bitmap, r) == 0,
    ensures
        depth >= 1,
        1 <= zeros_or_none(t.label_bitmap, q + 1),
        found_within(t, zeros_or_none(t.label_bitmap, q + 1), (depth - 1) as nat),
    decreases q - pos,
{
    let bm = t.label_bitmap;
    assert(bitmap_bit(bm, pos) == 0);
    if pos < q {
        lemma_edge_run(t, n, pos + 1, p, depth, q);
    } else {
        let label = t.labels[pos - n];
        let child = zeros_or_none(bm, pos + 1);
        lemma_subtree_prefix(
            t,
            child,
            select_pos(bm, child - 1) + 1,
            p.push(label),
            Seq::empty(),
            (depth - 1) as nat,
        );
    }
}

/// The child below an edge of a node whose keys are found has its keys found
/// one edge less deep.
proof fn lemma_edge_child(t: SuccinctView, n: int, depth: nat, q: int)
    requires
        found_within(t, n, depth),
        edge_of(t.label_bitmap, n, q),
    ensures
        depth >= 1,
        1 <= zeros_or_none(t.label_bitmap, q + 1),
        found_within(t, zeros_or_none(t.label_bitmap, q + 1), (depth - 1) as nat),
{
    let bm = t.label_bitmap;
    lemma_edge_run(t, n, node_start(bm, n), Seq::empty(), depth, q);
}

/// A node `k` edges below one whose keys are found within `depth` edges has
/// its keys found within `depth - k` edges.
proof fn lemma_reach_found(t: SuccinctView, n: int, m: int, k: nat, depth: nat)
    requires
        found_within(t, n, depth),
        reaches(t.label_bitmap, n, m, k),
    ensures
        k <= depth,
        found_within(t, m, (depth - k) as nat),
    decreases k,
{
    let bm = t.label_bitmap;
    if k > 0 {
        let q = choose|q: int| #[trigger] edge_of(bm, n, q) && reaches(bm, zeros_or_none(bm, q + 1), m, (k - 1) as nat);
        lemma_edge_child(t, n, depth, q);
        lemma_reach_found(t, zeros_or_none(bm, q + 1), m, (k - 1) as nat, (depth - 1) as nat);
    }
}

/// Below a node whose keys are found, no walk comes back to the node.
proof fn lemma_no_cycle(t: SuccinctView, n: int, k: nat, depth: nat)
    requires
        found_within(t, n, depth),
        k >= 1,
    ensures
        !reaches(t.label_bitmap, n, n, k),
    decreases depth,
{
    if reaches(t.label_bitmap, n, n, k) {
        lemma_reach_found(t, n, n, k, depth);
        lemma_no_cycle(t, n, k, (depth - k) as nat);
    }
}

/// Along the edges of a node from `q` on, the keys are found at depth `e`
/// where they are found at some depth and each child's keys are found one
/// edge less deep than `e`.
proof fn lemma_edges_at(t: SuccinctView, n: int, q: int, depth: nat, e: nat)
    requires
        edge_keys(t, n, q, Seq::empty(), depth) is Some,
        e >= 1,
        node_start(t.label_bitmap, n) <= q,
        forall|r: int| node_start(t.label_bitmap, n) <= r < q ==> #[trigger] bitmap_bit(t.label_bitmap, r) == 0,
        forall|q2: int| #[trigger] edge_of(t.label_bitmap, n, q2) ==> found_within(
            t,
            zeros_or_none(t.label_bitmap, q2 + 1),
            (e - 1) as nat,
        ),
    ensures
        edge_keys(t, n, q, Seq::empty(), e) is Some,
    decreases 64 * t.label_bitmap.len() - q,
{
    let bm = t.label_bitmap;
    if bitmap_bit(bm, q) == 0 {
        assert(edge_of(bm, n, q));
        let label = t.labels[q - n];
        let child = zeros_or_none(bm, q + 1);
        let cpos = select_pos(bm, child - 1) + 1;
        lemma_subtree_prefix(t, child, cpos, Seq::empty(), Seq::<u8>::empty().push(label), (e - 1) as nat);
        lemma_edges_at(t, n, q + 1, depth, e);
    }
}

/// Where the keys below node `n` are found, they are found within as many
/// edges as there are nodes in a set that holds every node below `n`.
proof fn lemma_depth_bound(t: SuccinctView, n: int, depth: nat, nodes: Set<int>)
    requires
        found_within(t, n, depth),
        nodes.finite(),
        forall|m: int, k: nat| #[trigger] reaches(t.label_bitmap, n, m, k) ==> nodes.contains(m),
    ensures
        found_within(t, n, nodes.len()),
    decreases nodes.len(),
{
    let bm = t.label_bitmap;
    assert(reaches(bm, n, n, 0));
    assert(nodes.contains(n));
    let rest = nodes.remove(n);
    assert forall|q: int| #[trigger] edge_of(bm, n, q) implies found_within(
        t,
        zeros_or_none(bm, q + 1),
        (nodes.len() - 1) as nat,
    ) by {
        let c = zeros_or_none(bm, q + 1);
        lemma_edge_child(t, n, depth, q);
        assert forall|m: int, k: nat| #[trigger] reaches(bm, c, m, k) implies rest.contains(m) by {
            assert(reaches(bm, n, m, k + 1));
            if m == n {
                lemma_no_cycle(t, n, k + 1, depth);
            }
        }
        lemma_depth_bound(t, c, (depth - 1) as nat, rest);
    }
    lemma_edges_at(t, n, node_start(bm, n), depth, nodes.len());
}

/// Every node below the root is a node id below `64 n + 1`, for a bitmap of
/// `n` words.
proof fn lemma_root_nodes(bm: Seq<u64>, m: int, k: nat)
    requires
        reaches(bm, 0, m, k),
    ensures
        0 <= m < 64 * bm.len() + 1,
{
    if k > 0 {
        let q = choose|q: int| #[trigger] edge_of(bm, 0, q) && reaches(bm, zeros_or_none(bm, q + 1), m, (k - 1) as nat);
        assert(bitmap_bit(bm, q) == 0);
        lemma_ones_before_monotone(bm, 0, q + 1);
        lemma_node_ids(bm, zeros_or_none(bm, q + 1), m, (k - 1) as nat);
    }
}

/// Every node below a node id below `64 n + 1` is one too.
proof fn lemma_node_ids(bm: Seq<u64>, n: int, m: int, k: nat)
    requires
        reaches(bm, n, m, k),
        0 <= n < 64 * bm.len() + 1,
    ensures
        0 <= m < 64 * bm.len() + 1,
    decreases k,
{
    if k > 0 {
        let q = choose|q: int| #[trigger] edge_of(bm, n, q) && reaches(bm, zeros_or_none(bm, q + 1), m, (k - 1) as nat);
        assert(node_start(bm, n) <= q);
        assert(bitmap_bit(bm, q) == 0);
        lemma_ones_before_monotone(bm, 0, q + 1);
        lemma_node_ids(bm, zeros_or_none(bm, q + 1), m, (k - 1) as nat);
    }
}

/// Wherever the keys of `t` are found, they are found within `key_depth`
/// edges: a walk that goes deeper passes some node twice, and below a node
/// whose keys are found no walk comes back to it.
pub proof fn lemma_key_depth_suffices(t: SuccinctView)
    requires
        keys_defined(t),
    ensures
        subtree_keys(t, 0, 0, Seq::empty(), key_depth(t)) is Some,
{
    let bm = t.label_bitmap;
    let d = choose|d: nat| #[trigger] subtree_keys(t, 0, 0, Seq::empty(), d) is Some;
    let nodes = vstd::set_lib::set_int_range(0, 64 * bm.len() as int + 1);
    vstd::set_lib::lemma_int_range(0, 64 * bm.len() as int + 1);
    assert forall|m: int, k: nat| #[trigger] reaches(bm, 0, m, k) implies nodes.contains(m) by {
        lemma_root_nodes(bm, m, k);
    }
    lemma_depth_bound(t, 0, d, nodes);
}

} // verus!
