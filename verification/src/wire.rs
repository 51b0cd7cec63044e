//! Byte-level decoding shared by the rule-set parsers: a cursor over a byte
//! slice, unsigned LEB128 integers and big-endian integers.
use vstd::prelude::*;
use vstd::arithmetic::power2::{pow2, lemma_pow2_adds, lemma2_to64, lemma_pow2_pos};
use vstd::bits::{lemma_u64_shl_is_mul, lemma_u64_pow2_no_overflow};

verus! {

/// Why an unsigned LEB128 integer could not be read.
#[derive(Debug, Clone, Copy, PartialEq, Eq)]
pub enum VarintError {
    /// The data ended before the last byte of the integer.
    Eof,
    /// Ten bytes were read and each of them announced a further byte.
    TooLong,
}

/// The integer that a run of LEB128 groups denotes: group `i` carries the
/// seven low bits of byte `i` at weight `2^(7 i)`.
pub open spec fn leb128_value(groups: Seq<u8>) -> int
    decreases groups.len(),
{
    if groups.len() == 0 {
        0
    } else {
        leb128_value(groups.drop_last()) + (groups.last() % 128) as int * pow2(
            (7 * (groups.len() - 1)) as nat,
        )
    }
}

/// Decoding of an unsigned LEB128 integer whose first byte is at `pos`, having
/// already seen `i` bytes that each announced a further byte. At most ten
/// bytes are read; the value is kept modulo `2^64`.
pub open spec fn take_uvarint_from(s: Seq<u8>, pos: int, i: int) -> Result<
    (u64, int),
    VarintError,
>
    decreases 10 - i,
{
    if i >= 10 || i < 0 {
        Err(VarintError::TooLong)
    } else if pos + i < 0 || pos + i >= s.len() {
        Err(VarintError::Eof)
    } else if s[pos + i] < 0x80 {
        Ok(
            (
                (leb128_value(s.subrange(pos, pos + i + 1)) % 0x1_0000_0000_0000_0000int) as u64,
                pos + i + 1,
            ),
        )
    } else {
        take_uvarint_from(s, pos, i + 1)
    }
}

/// The unsigned LEB128 integer at `pos`, and the position after it.
pub open spec fn take_uvarint(s: Seq<u8>, pos: int) -> Result<(u64, int), VarintError> {
    take_uvarint_from(s, pos, 0)
}

/// Where reading an unsigned LEB128 integer from `pos` stops on error `e`:
/// at the end of the data, or after the ten bytes read.
pub open spec fn uvarint_stop(s: Seq<u8>, pos: int, e: VarintError) -> int {
    match e {
        VarintError::Eof => s.len() as int,
        VarintError::TooLong => pos + 10,
    }
}

/// The byte at `pos`, and the position after it.
pub open spec fn take_u8(s: Seq<u8>, pos: int) -> Option<(u8, int)> {
    if 0 <= pos < s.len() {
        Some((s[pos], pos + 1))
    } else {
        None
    }
}

/// The `len` bytes from `pos` on, and the position after them.
pub open spec fn take_bytes(s: Seq<u8>, pos: int, len: int) -> Option<(Seq<u8>, int)> {
    if 0 <= pos && 0 <= len && pos + len <= s.len() {
        Some((s.subrange(pos, pos + len), pos + len))
    } else {
        None
    }
}

/// The number that bytes denote in big-endian order.
pub open spec fn be_value(bytes: Seq<u8>) -> nat
    decreases bytes.len(),
{
    if bytes.len() == 0 {
        0
    } else {
        be_value(bytes.drop_last()) * 256 + bytes.last() as nat
    }
}

/// The big-endian number in the `len` bytes from `pos` on, and the position
/// after them.
pub open spec fn take_be(s: Seq<u8>, pos: int, len: int) -> Option<(nat, int)> {
    match take_bytes(s, pos, len) {
        Some((b, p)) => Some((be_value(b), p)),
        None => None,
    }
}

/// `n` big-endian bytes denote a number below `256^n`.
pub proof fn lemma_be_value_bound(bytes: Seq<u8>)
    ensures
        be_value(bytes) < pow2((8 * bytes.len()) as nat),
    decreases bytes.len(),
{
    lemma_pow2_pos((8 * bytes.len()) as nat);
    if bytes.len() > 0 {
        let n = bytes.len();
        lemma_be_value_bound(bytes.drop_last());
        lemma_pow2_adds((8 * (n - 1)) as nat, 8);
        lemma2_to64();
        assert(be_value(bytes) <= (pow2((8 * (n - 1)) as nat) - 1) * 256 + 255) by (nonlinear_arith)
            requires
                be_value(bytes) == be_value(bytes.drop_last()) * 256 + bytes.last() as nat,
                be_value(bytes.drop_last()) < pow2((8 * (n - 1)) as nat),
                bytes.last() < 256,
        ;
    }
}

/// `n` LEB128 groups denote a number below `2^(7 n)`.
proof fn lemma_leb128_bound(groups: Seq<u8>)
    ensures
        0 <= leb128_value(groups) < pow2((7 * groups.len()) as nat),
    decreases groups.len(),
{
    lemma_pow2_pos((7 * groups.len()) as nat);
    if groups.len() > 0 {
        let n = groups.len();
        let w = pow2((7 * (n - 1)) as nat);
        lemma_leb128_bound(groups.drop_last());
        lemma_pow2_adds((7 * (n - 1)) as nat, 7);
        lemma2_to64();
        lemma_pow2_pos((7 * (n - 1)) as nat);
        assert(leb128_value(groups) <= (w - 1) + 127 * w) by (nonlinear_arith)
            requires
                leb128_value(groups) == leb128_value(groups.drop_last()) + (groups.last()
                    % 128) as int * w,
                leb128_value(groups.drop_last()) < w,
                (groups.last() % 128) as int <= 127,
                w > 0,
        ;
        assert(0 <= (groups.last() % 128) as int * w) by (nonlinear_arith)
            requires
                w > 0,
        ;
    }
}

/// Adding the group `x` at shift `shift` to an accumulator that holds only
/// lower bits, as the decoder does with `|` and `<<`.
proof fn lemma_or_group(r: u64, x: u64, shift: u64)
    requires
        shift % 7 == 0,
        shift <= 63,
        r < pow2(shift as nat),
        x < 128,
    ensures
        (r | (x << shift)) as int == (r + x * pow2(shift as nat)) % 0x1_0000_0000_0000_0000int,
{
    lemma_u64_pow2_no_overflow(shift as nat);
    lemma_u64_shl_is_mul(1, shift);
    assert(r | (x << shift) == r + (x << shift)) by (bit_vector)
        requires
            shift < 64,
            r < (1u64 << shift),
    ;
    lemma2_to64();
    vstd::arithmetic::power2::lemma2_to64_rest();
    if shift <= 56 {
        lemma_u64_pow2_no_overflow(56);
        if shift < 56 {
            vstd::arithmetic::power2::lemma_pow2_strictly_increases(shift as nat, 56);
        }
        assert(x * pow2(shift as nat) <= 127 * pow2(56)) by (nonlinear_arith)
            requires
                x <= 127,
                pow2(shift as nat) <= pow2(56),
        ;
        assert(pow2(shift as nat) <= 0x100000000000000);
        assert(x * pow2(shift as nat) <= 0xffff_ffff_ffff_ffff);
        lemma_u64_shl_is_mul(x, shift);
        assert(r + x * pow2(shift as nat) < 0x1_0000_0000_0000_0000int) by (nonlinear_arith)
            requires
                r < pow2(shift as nat),
                x <= 127,
                pow2(shift as nat) <= 0x100000000000000,
        ;
    } else {
        assert(shift == 63);
        vstd::arithmetic::power2::lemma2_to64_rest();
        assert(x << 63 == (x % 2) << 63) by (bit_vector);
        lemma_u64_shl_is_mul(x % 2, 63);
        assert(x == 2 * (x / 2) + x % 2);
        assert(x * 0x8000_0000_0000_0000int == (x / 2) * 0x1_0000_0000_0000_0000int + (x % 2)
            * 0x8000_0000_0000_0000int);
    }
}

/// A LEB128 integer takes at least one byte and lies within the data.
pub proof fn lemma_uvarint_advances(s: Seq<u8>, pos: int)
    ensures
        take_uvarint(s, pos) matches Ok((v, p)) ==> pos < p <= s.len(),
{
    lemma_uvarint_from_advances(s, pos, 0);
}

pub proof fn lemma_uvarint_from_advances(s: Seq<u8>, pos: int, i: int)
    requires
        0 <= i,
    ensures
        take_uvarint_from(s, pos, i) matches Ok((v, p)) ==> pos + i < p <= s.len(),
    decreases 10 - i,
{
    if 0 <= i < 10 && !(pos + i < 0 || pos + i >= s.len()) && !(s[pos + i] < 0x80) {
        lemma_uvarint_from_advances(s, pos, i + 1);
    }
}

/// The shortest unsigned LEB128 encoding of `v`: seven-bit groups, lowest
/// first, each but the last with its high bit set.
pub open spec fn uvarint_encoding(v: nat) -> Seq<u8>
    decreases v,
{
    if v < 128 {
        seq![v as u8]
    } else {
        seq![(v % 128 + 128) as u8] + uvarint_encoding(v / 128)
    }
}

/// Each byte of the encoding but the last announces a further byte; the
/// last does not.
proof fn lemma_encoding_bytes(v: nat)
    ensures
        uvarint_encoding(v).len() >= 1,
        uvarint_encoding(v).last() < 0x80,
        forall|j: int| 0 <= j < uvarint_encoding(v).len() - 1 ==> #[trigger] uvarint_encoding(v)[j] >= 0x80,
    decreases v,
{
    if v >= 128 {
        let rest = uvarint_encoding(v / 128);
        lemma_encoding_bytes(v / 128);
        let e = uvarint_encoding(v);
        assert(e == seq![(v % 128 + 128) as u8] + rest);
        assert forall|j: int| 0 <= j < e.len() - 1 implies #[trigger] e[j] >= 0x80 by {
            if j > 0 {
                assert(e[j] == rest[j - 1]);
            }
        }
    }
}

/// A value below `2^(7 k)` takes at most `k` bytes.
proof fn lemma_encoding_len(v: nat, k: nat)
    requires
        k >= 1,
        v < pow2(7 * k),
    ensures
        uvarint_encoding(v).len() <= k,
    decreases k,
{
    if v >= 128 {
        lemma2_to64();
        if k == 1 {
            assert(false);
        }
        lemma_pow2_adds((7 * (k - 1)) as nat, 7);
        assert(7 * (k - 1) + 7 == 7 * k);
        let w = pow2((7 * (k - 1)) as nat);
        assert(v / 128 < w) by (nonlinear_arith)
            requires
                v < w * 128,
        ;
        lemma_encoding_len(v / 128, (k - 1) as nat);
    }
}

/// A group byte put before groups `g` adds its seven bits below them.
proof fn lemma_leb128_prepend(b: u8, g: Seq<u8>)
    ensures
        leb128_value(seq![b] + g) == (b % 128) as int + 128 * leb128_value(g),
    decreases g.len(),
{
    let l = seq![b] + g;
    lemma2_to64();
    if g.len() == 0 {
        assert(l.drop_last() =~= Seq::<u8>::empty());
        assert(l.last() == b);
        assert(leb128_value(l) == leb128_value(l.drop_last()) + (l.last() % 128) as int * pow2(0));
    } else {
        let n = g.len();
        assert(l.drop_last() =~= seq![b] + g.drop_last());
        assert(l.last() == g.last());
        assert(l.len() == n + 1);
        lemma_leb128_prepend(b, g.drop_last());
        lemma_pow2_adds((7 * (n - 1)) as nat, 7);
        assert(7 * (n - 1) + 7 == 7 * n);
        let w = pow2((7 * (n - 1)) as nat);
        let x = (g.last() % 128) as int;
        assert(pow2((7 * n) as nat) == w * 128);
        assert(leb128_value(l) == leb128_value(l.drop_last()) + x * pow2((7 * n) as nat));
        assert(leb128_value(g) == leb128_value(g.drop_last()) + x * w);
        assert(128 * (leb128_value(g.drop_last()) + x * w) == 128 * leb128_value(g.drop_last()) + x * (w
            * 128)) by (nonlinear_arith);
    }
}

/// The groups of the encoding denote the value.
proof fn lemma_encoding_value(v: nat)
    ensures
        leb128_value(uvarint_encoding(v)) == v,
    decreases v,
{
    lemma2_to64();
    if v < 128 {
        let e = uvarint_encoding(v);
        assert(e.drop_last() =~= Seq::<u8>::empty());
        assert(e.last() == v as u8);
        assert(leb128_value(e) == leb128_value(e.drop_last()) + (e.last() % 128) as int * pow2(0));
    } else {
        let b = (v % 128 + 128) as u8;
        assert(b % 128 == v % 128);
        lemma_encoding_value(v / 128);
        lemma_leb128_prepend(b, uvarint_encoding(v / 128));
        assert(v == v % 128 + 128 * (v / 128));
    }
}

/// Decoding from position `pos + i` on, where the encoding of `v` lies at
/// `pos` and its first `i` bytes have been seen.
proof fn lemma_take_encoding(v: u64, s: Seq<u8>, pos: int, i: int)
    requires
        0 <= pos,
        0 <= i < uvarint_encoding(v as nat).len(),
        uvarint_encoding(v as nat).len() <= 10,
        pos + uvarint_encoding(v as nat).len() <= s.len(),
        s.subrange(pos, pos + uvarint_encoding(v as nat).len()) == uvarint_encoding(v as nat),
    ensures
        take_uvarint_from(s, pos, i) == Ok::<(u64, int), VarintError>(
            (v, pos + uvarint_encoding(v as nat).len()),
        ),
    decreases uvarint_encoding(v as nat).len() - i,
{
    let e = uvarint_encoding(v as nat);
    lemma_encoding_bytes(v as nat);
    assert(s[pos + i] == e[i]);
    if i < e.len() - 1 {
        lemma_take_encoding(v, s, pos, i + 1);
    } else {
        lemma_encoding_value(v as nat);
        assert(s.subrange(pos, pos + i + 1) == e);
    }
}

/// Decoding the shortest LEB128 encoding of a value gives the value back,
/// with the position just after the encoding, whatever follows it.
pub proof fn lemma_uvarint_round_trip(v: u64, s: Seq<u8>, pos: int)
    requires
        0 <= pos,
        pos + uvarint_encoding(v as nat).len() <= s.len(),
        s.subrange(pos, pos + uvarint_encoding(v as nat).len()) == uvarint_encoding(v as nat),
    ensures
        take_uvarint(s, pos) == Ok::<(u64, int), VarintError>((v, pos + uvarint_encoding(v as nat).len())),
{
    lemma2_to64();
    vstd::arithmetic::power2::lemma2_to64_rest();
    vstd::arithmetic::power2::lemma_pow2_strictly_increases(64, 70);
    lemma_encoding_len(v as nat, 10);
    lemma_encoding_bytes(v as nat);
    lemma_take_encoding(v, s, pos, 0);
}

/// A position in a byte slice from which values are decoded in order.
pub struct Cursor<'a> {
    pub data: &'a [u8],
    pub pos: usize,
}

impl<'a> Cursor<'a> {
    /// The cursor is within its data.
    pub open spec fn wf(&self) -> bool {
        self.pos <= self.data@.len()
    }

    /// A cursor at the start of `data`.
    pub fn new(data: &'a [u8]) -> (c: Self)
        ensures
            c.wf(),
            c.data@ == data@,
            c.pos == 0,
    {
        Cursor { data, pos: 0 }
    }

    /// The bytes from the cursor to the end.
    pub fn remaining(&self) -> (r: &'a [u8])
        requires
            self.wf(),
        ensures
            r@ == self.data@.subrange(self.pos as int, self.data@.len() as int),
    {
        vstd::slice::slice_subrange(self.data, self.pos, self.data.len())
    }

    /// The next byte, if there is one.
    pub fn read_u8(&mut self) -> (r: Option<u8>)
        requires
            old(self).wf(),
        ensures
            final(self).wf(),
            final(self).data == old(self).data,
            match take_u8(old(self).data@, old(self).pos as int) {
                Some((b, p)) => r == Some(b) && final(self).pos == p,
                None => r is None && final(self).pos == old(self).pos,
            },
    {
        if self.pos >= self.data.len() {
            return None;
        }
        let value = self.data[self.pos];
        self.pos = self.pos + 1;
        Some(value)
    }

    /// The next `len` bytes, if there are that many.
    pub fn read_exact(&mut self, len: usize) -> (r: Option<&'a [u8]>)
        requires
            old(self).wf(),
        ensures
            final(self).wf(),
            final(self).data == old(self).data,
            match take_bytes(old(self).data@, old(self).pos as int, len as int) {
                Some((b, p)) => r matches Some(v) && v@ == b && final(self).pos == p,
                None => r is None && final(self).pos == old(self).pos,
            },
    {
        if len > self.data.len() - self.pos {
            return None;
        }
        let end = self.pos + len;
        let result = vstd::slice::slice_subrange(self.data, self.pos, end);
        self.pos = end;
        Some(result)
    }

    /// The next unsigned LEB128 integer.
    pub fn read_uvarint(&mut self) -> (r: Result<u64, VarintError>)
        requires
            old(self).wf(),
        ensures
            final(self).wf(),
            final(self).data == old(self).data,
            match take_uvarint(old(self).data@, old(self).pos as int) {
                Ok((v, p)) => r == Ok::<u64, VarintError>(v) && final(self).pos == p,
                Err(e) => r == Err::<u64, VarintError>(e) && final(self).pos == uvarint_stop(
                    old(self).data@,
                    old(self).pos as int,
                    e,
                ),
            },
    {
        let ghost s = self.data@;
        let ghost start = self.pos as int;
        let mut result: u64 = 0;
        let mut shift: u64 = 0;
        let mut i: usize = 0;
        proof {
            lemma2_to64();
            assert(s.subrange(start, start) =~= Seq::<u8>::empty());
        }
        while i < 10
            invariant
                self.wf(),
                self.data == old(self).data,
                s == self.data@,
                start == old(self).pos,
                i <= 10,
                shift == 7 * i,
                self.pos == start + i,
                take_uvarint(s, start) == take_uvarint_from(s, start, i as int),
                result == leb128_value(s.subrange(start, start + i)) % 0x1_0000_0000_0000_0000int,
                i < 10 ==> result == leb128_value(s.subrange(start, start + i)),
                i < 10 ==> result < pow2(shift as nat),
            decreases 10 - i,
        {
            let byte = match self.read_u8() {
                Some(b) => b,
                None => {
                    return Err(VarintError::Eof);
                },
            };
            let group = (byte & 0x7f) as u64;
            assert(byte & 0x7f == byte % 128 && (byte & 0x80 == 0) == (byte < 0x80)) by (bit_vector);
            proof {
                lemma_or_group(result, group, shift);
                lemma_leb128_bound(s.subrange(start, start + i + 1));
                assert(s.subrange(start, start + i + 1).drop_last() =~= s.subrange(start, start + i));
            }
            let ghost prev = result;
            result = result | (group << shift);
            proof {
                lemma_pow2_adds(shift as nat, 7);
                lemma2_to64();
                let v = leb128_value(s.subrange(start, start + i + 1));
                assert(v == prev + group * pow2(shift as nat));
                lemma_leb128_bound(s.subrange(start, start + i + 1));
                if i < 9 {
                    vstd::arithmetic::power2::lemma2_to64_rest();
                    vstd::arithmetic::power2::lemma_pow2_strictly_increases((shift + 7) as nat, 64);
                    assert(v % 0x1_0000_0000_0000_0000int == v);
                }
            }
            if byte & 0x80 == 0 {
                return Ok(result);
            }
            shift = shift + 7;
            i = i + 1;
        }
        Err(VarintError::TooLong)
    }
}

/// The big-endian number in at most sixteen bytes.
pub fn be_u128(bytes: &[u8]) -> (v: u128)
    requires
        bytes@.len() <= 16,
    ensures
        v == be_value(bytes@),
{
    let mut v: u128 = 0;
    let mut i: usize = 0;
    while i < bytes.len()
        invariant
            i <= bytes@.len() <= 16,
            v == be_value(bytes@.subrange(0, i as int)),
        decreases bytes@.len() - i,
    {
        proof {
            lemma_be_value_bound(bytes@.subrange(0, i as int));
            lemma_pow2_adds((8 * i) as nat, 8);
            lemma2_to64();
            if 8 * i + 8 < 128 {
                vstd::arithmetic::power2::lemma_pow2_strictly_increases((8 * i + 8) as nat, 128);
            }
            vstd::arithmetic::power2::lemma2_to64_rest();
            lemma_pow2_adds(64, 64);
            assert(bytes@.subrange(0, i + 1).drop_last() =~= bytes@.subrange(0, i as int));
            assert(v * 256 + bytes@[i as int] < pow2((8 * i + 8) as nat)) by (nonlinear_arith)
                requires
                    v < pow2((8 * i) as nat),
                    pow2((8 * i + 8) as nat) == pow2((8 * i) as nat) * 256,
                    bytes@[i as int] < 256,
            ;
        }
        v = v * 256 + bytes[i] as u128;
        i = i + 1;
    }
    assert(bytes@.subrange(0, bytes@.len() as int) =~= bytes@);
    v
}

} // verus!
