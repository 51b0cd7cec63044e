//! Text in rule sets: UTF-8 decoding of byte strings, and the character
//! reversal under which domains are stored in a trie.
use vstd::prelude::*;
use vstd::std_specs::iter::IteratorSpec;
use vstd::utf8::{decode_utf8, encode_scalar, encode_utf8, valid_utf8, pop_first_scalar};

verus! {

/// `std::str::from_utf8`. Claimed of it, as its documentation says: it
/// succeeds exactly on valid UTF-8 (as `vstd::utf8::valid_utf8` states it),
/// and then yields the text that the bytes encode.
#[verifier::external_body]
pub(crate) fn str_from_utf8(bytes: &[u8]) -> (r: Option<&str>)
    ensures
        r is Some <==> valid_utf8(bytes@),
        r matches Some(t) ==> t@ == decode_utf8(bytes@),
{
    match std::str::from_utf8(bytes) {
        Ok(t) => Some(t),
        Err(_) => None,
    }
}

/// Encoding a sequence with one more character appends that character's
/// encoding.
pub proof fn lemma_encode_utf8_push(s: Seq<char>, c: char)
    ensures
        encode_utf8(s.push(c)) == encode_utf8(s) + encode_scalar(c as u32),
    decreases s.len(),
{
    if s.len() == 0 {
        let rest = s.push(c).drop_first();
        assert(rest =~= Seq::<char>::empty());
        assert(encode_utf8(rest) == Seq::<u8>::empty());
        assert(s.push(c)[0] == c);
        assert(encode_utf8(s) == Seq::<u8>::empty());
        assert(encode_utf8(s.push(c)) =~= encode_utf8(s) + encode_scalar(c as u32));
    } else {
        assert(s.push(c).drop_first() =~= s.drop_first().push(c));
        lemma_encode_utf8_push(s.drop_first(), c);
        assert(encode_utf8(s.push(c)) =~= encode_utf8(s) + encode_scalar(c as u32));
    }
}

/// The characters of `text`, in order.
pub fn collect_chars(text: &str) -> (r: Vec<char>)
    ensures
        r@ == text@,
{
    let mut it = text.chars();
    let mut out: Vec<char> = Vec::new();
    loop
        invariant
            out@ + IteratorSpec::remaining(&it) == text@,
            IteratorSpec::decrease(&it) is Some,
        ensures
            out@ == text@,
        decreases IteratorSpec::decrease(&it)->0,
    {
        match it.next() {
            Some(c) => {
                proof {
                    assert(out@.push(c) + IteratorSpec::remaining(&it) =~= text@);
                }
                out.push(c);
            },
            None => {
                assert(out@ =~= text@);
                break;
            },
        }
    }
    out
}

/// Appends the UTF-8 encoding of `c` (what `char::encode_utf8` writes).
pub fn push_utf8(out: &mut Vec<u8>, c: char)
    ensures
        final(out)@ == old(out)@ + encode_scalar(c as u32),
{
    let v = c as u32;
    proof {
        vstd::utf8::char_is_scalar(c);
    }
    if v <= 0x7F {
        out.push((v & 0x7F) as u8);
    } else if v <= 0x7FF {
        out.push(0xC0 | ((v >> 6) & 0x1F) as u8);
        out.push(0x80 | (v & 0x3F) as u8);
    } else if v <= 0xFFFF {
        out.push(0xE0 | ((v >> 12) & 0x0F) as u8);
        out.push(0x80 | ((v >> 6) & 0x3F) as u8);
        out.push(0x80 | (v & 0x3F) as u8);
    } else {
        out.push(0xF0 | ((v >> 18) & 0x7) as u8);
        out.push(0x80 | ((v >> 12) & 0x3F) as u8);
        out.push(0x80 | ((v >> 6) & 0x3F) as u8);
        out.push(0x80 | (v & 0x3F) as u8);
    }
    assert(final(out)@ =~= old(out)@ + encode_scalar(c as u32));
}

/// The UTF-8 bytes of `chars` taken in reverse order.
pub fn encode_reversed(chars: &Vec<char>) -> (r: Vec<u8>)
    ensures
        r@ == encode_utf8(chars@.reverse()),
{
    let n = chars.len();
    let mut result: Vec<u8> = Vec::with_capacity(n);
    let mut k = n;
    assert(chars@.subrange(n as int, n as int).reverse() =~= Seq::<char>::empty());
    while k > 0
        invariant
            k <= n,
            n == chars@.len(),
            result@ == encode_utf8(chars@.subrange(k as int, n as int).reverse()),
        decreases k,
    {
        k = k - 1;
        let c = chars[k];
        proof {
            let tail = chars@.subrange(k + 1, n as int).reverse();
            assert(chars@.subrange(k as int, n as int).reverse() =~= tail.push(c));
            lemma_encode_utf8_push(tail, c);
        }
        push_utf8(&mut result, c);
    }
    assert(chars@.subrange(0, n as int) =~= chars@);
    result
}

/// The bytes that encode a character above `\r` are all above `\r`.
proof fn lemma_scalar_bytes_above(v: u32)
    requires
        v > 0x0d,
    ensures
        forall|j: int| 0 <= j < encode_scalar(v).len() ==> #[trigger] encode_scalar(v)[j] > 0x0d,
{
    assert((0x80u8 | ((v & 0x3F) as u8)) >= 0x80u8) by (bit_vector);
    assert((0x80u8 | (((v >> 6u32) & 0x3F) as u8)) >= 0x80u8) by (bit_vector);
    assert((0x80u8 | (((v >> 12u32) & 0x3F) as u8)) >= 0x80u8) by (bit_vector);
    assert((0xC0u8 | (((v >> 6u32) & 0x1F) as u8)) >= 0xC0u8) by (bit_vector);
    assert((0xE0u8 | (((v >> 12u32) & 0x0F) as u8)) >= 0xE0u8) by (bit_vector);
    assert((0xF0u8 | (((v >> 18u32) & 0x7) as u8)) >= 0xF0u8) by (bit_vector);
    if v <= 0x7F {
        assert(((v & 0x7F) as u8) == v) by (bit_vector)
            requires
                v <= 0x7F,
        ;
    }
}

/// A text whose characters are all above `\r` encodes to bytes that are all
/// above `\r`.
pub proof fn lemma_encode_above(chars: Seq<char>)
    requires
        forall|j: int| 0 <= j < chars.len() ==> #[trigger] chars[j] as u32 > 0x0d,
    ensures
        forall|j: int| 0 <= j < encode_utf8(chars).len() ==> #[trigger] encode_utf8(chars)[j] > 0x0d,
    decreases chars.len(),
{
    if chars.len() > 0 {
        let rest = chars.drop_first();
        assert forall|j: int| 0 <= j < rest.len() implies #[trigger] rest[j] as u32 > 0x0d by {
            assert(rest[j] == chars[j + 1]);
        }
        lemma_encode_above(rest);
        assert(chars[0] as u32 > 0x0d);
        lemma_scalar_bytes_above(chars[0] as u32);
        let e = encode_utf8(chars);
        let f = encode_scalar(chars[0] as u32);
        assert(e == f + encode_utf8(rest));
        assert forall|j: int| 0 <= j < e.len() implies #[trigger] e[j] > 0x0d by {
            if j < f.len() {
                assert(e[j] == f[j]);
            } else {
                assert(e[j] == encode_utf8(rest)[j - f.len()]);
            }
        }
    }
}

/// Encoding two texts one after the other gives the two encodings one after
/// the other.
pub proof fn lemma_encode_concat(a: Seq<char>, b: Seq<char>)
    ensures
        encode_utf8(a + b) == encode_utf8(a) + encode_utf8(b),
    decreases a.len(),
{
    if a.len() > 0 {
        lemma_encode_concat(a.drop_first(), b);
        assert((a + b)[0] == a[0]);
        assert((a + b).drop_first() =~= a.drop_first() + b);
        assert(encode_utf8(a) == encode_scalar(a[0] as u32) + encode_utf8(a.drop_first()));
        assert(encode_utf8(a + b) == encode_scalar(a[0] as u32) + encode_utf8(a.drop_first() + b));
        assert(encode_utf8(a + b) =~= encode_utf8(a) + encode_utf8(b));
    } else {
        assert(a + b =~= b);
        assert(encode_utf8(a) =~= Seq::<u8>::empty());
        assert(encode_utf8(a) + encode_utf8(b) =~= encode_utf8(b));
    }
}

/// The encoding of a character: one byte equal to it below `0x80`; else
/// bytes that are all `0x80` or above.
pub proof fn lemma_scalar_shape(v: u32)
    ensures
        encode_scalar(v).len() >= 1,
        v <= 0x7F ==> encode_scalar(v) == seq![v as u8],
        v > 0x7F ==> forall|j: int| 0 <= j < encode_scalar(v).len() ==> #[trigger] encode_scalar(v)[j] >= 0x80,
{
    assert((0x80u8 | ((v & 0x3F) as u8)) >= 0x80u8) by (bit_vector);
    assert((0x80u8 | (((v >> 6u32) & 0x3F) as u8)) >= 0x80u8) by (bit_vector);
    assert((0x80u8 | (((v >> 12u32) & 0x3F) as u8)) >= 0x80u8) by (bit_vector);
    assert((0xC0u8 | (((v >> 6u32) & 0x1F) as u8)) >= 0xC0u8) by (bit_vector);
    assert((0xE0u8 | (((v >> 12u32) & 0x0F) as u8)) >= 0xE0u8) by (bit_vector);
    assert((0xF0u8 | (((v >> 18u32) & 0x7) as u8)) >= 0xF0u8) by (bit_vector);
    if v <= 0x7F {
        assert(((v & 0x7F) as u8) == v) by (bit_vector)
            requires
                v <= 0x7F,
        ;
        assert(encode_scalar(v) =~= seq![v as u8]);
    }
}

/// A text whose encoding starts with a byte below `0x80` starts with that
/// character, and the rest of the encoding encodes the rest of the text.
pub proof fn lemma_ascii_head(x: Seq<char>)
    requires
        x.len() > 0,
    ensures
        encode_utf8(x).len() > 0,
        encode_utf8(x)[0] < 0x80 <==> x[0] as u32 <= 0x7F,
        x[0] as u32 <= 0x7F ==> encode_utf8(x)[0] == x[0] as u32 && encode_utf8(x).drop_first()
            == encode_utf8(x.drop_first()),
{
    lemma_scalar_shape(x[0] as u32);
    let f = encode_scalar(x[0] as u32);
    assert(encode_utf8(x) == f + encode_utf8(x.drop_first()));
    assert(encode_utf8(x)[0] == f[0]);
    if x[0] as u32 <= 0x7F {
        assert(encode_utf8(x).drop_first() =~= encode_utf8(x.drop_first()));
    }
}

/// A text whose encoding ends with a byte below `0x80` ends with that
/// character.
pub proof fn lemma_ascii_last(x: Seq<char>)
    requires
        x.len() > 0,
        encode_utf8(x).last() < 0x80,
    ensures
        x.last() as u32 == encode_utf8(x).last(),
        encode_utf8(x) == encode_utf8(x.drop_last()).push(encode_utf8(x).last()),
{
    assert(x =~= x.drop_last().push(x.last()));
    lemma_encode_utf8_push(x.drop_last(), x.last());
    lemma_scalar_shape(x.last() as u32);
    let f = encode_scalar(x.last() as u32);
    let e = encode_utf8(x);
    assert(e.last() == f[f.len() - 1]);
    assert(x.last() as u32 <= 0x7F);
    assert(e =~= encode_utf8(x.drop_last()).push(e.last()));
}

/// Where one text's encoding begins another's, the one text begins the
/// other.
pub proof fn lemma_encoded_prefix(w: Seq<char>, x: Seq<char>)
    requires
        encode_utf8(w).len() <= encode_utf8(x).len(),
        encode_utf8(x).subrange(0, encode_utf8(w).len() as int) == encode_utf8(w),
    ensures
        w.len() <= x.len(),
        x.subrange(0, w.len() as int) == w,
    decreases w.len(),
{
    if w.len() == 0 {
        assert(x.subrange(0, 0) =~= w);
    } else {
        let ew = encode_utf8(w);
        let ex = encode_utf8(x);
        vstd::utf8::encode_utf8_first_scalar(w);
        lemma_scalar_shape(w[0] as u32);
        assert(ew.len() > 0);
        assert(x.len() > 0) by {
            if x.len() == 0 {
                assert(ex.len() == 0);
            }
        }
        vstd::utf8::encode_utf8_first_scalar(x);
        let lw = vstd::utf8::length_of_first_scalar(ew);
        assert forall|j: int| 0 <= j < ew.len() implies ew[j] == ex[j] by {
            assert(ex.subrange(0, ew.len() as int)[j] == ex[j]);
        }
        assert(vstd::utf8::length_of_first_scalar(ex) == lw);
        assert(vstd::utf8::decode_first_scalar(ex) == vstd::utf8::decode_first_scalar(ew));
        assert(w[0] == x[0]) by {
            vstd::utf8::char_u32_cast(w[0], w[0] as u32);
            vstd::utf8::char_u32_cast(x[0], x[0] as u32);
        }
        let f = encode_scalar(w[0] as u32);
        assert(ew == f + encode_utf8(w.drop_first()));
        assert(ex == f + encode_utf8(x.drop_first()));
        assert(encode_utf8(x.drop_first()).subrange(0, encode_utf8(w.drop_first()).len() as int)
            =~= encode_utf8(w.drop_first())) by {
            assert forall|j: int| 0 <= j < encode_utf8(w.drop_first()).len() implies encode_utf8(
                x.drop_first(),
            )[j] == encode_utf8(w.drop_first())[j] by {
                assert(ew[f.len() + j] == ex[f.len() + j]);
            }
        }
        lemma_encoded_prefix(w.drop_first(), x.drop_first());
        assert(x.subrange(0, w.len() as int) =~= seq![x[0]] + x.drop_first().subrange(0, w.len() - 1));
        assert(w =~= seq![w[0]] + w.drop_first());
    }
}

/// Reversing the characters of a text keeps the length of its UTF-8
/// encoding.
pub proof fn lemma_reverse_keeps_length(chars: Seq<char>)
    ensures
        encode_utf8(chars.reverse()).len() == encode_utf8(chars).len(),
    decreases chars.len(),
{
    if chars.len() > 0 {
        let t = chars.drop_first();
        lemma_reverse_keeps_length(t);
        assert(chars.reverse() =~= t.reverse().push(chars[0]));
        lemma_encode_utf8_push(t.reverse(), chars[0]);
    }
}

/// A domain with its characters in reverse order, as UTF-8 bytes: the form
/// under which domains are stored in a trie. The bytes are as many as the
/// domain's, are valid UTF-8, and reversing their text gives the domain back.
pub fn reverse_domain(domain: &str) -> (r: Vec<u8>)
    ensures
        r@ == encode_utf8(domain@.reverse()),
        r@.len() == encode_utf8(domain@).len(),
        valid_utf8(r@),
        decode_utf8(r@).reverse() == domain@,
{
    let chars = collect_chars(domain);
    let r = encode_reversed(&chars);
    proof {
        lemma_reverse_keeps_length(domain@);
        lemma_encode_valid(domain@.reverse());
        assert(domain@.reverse().reverse() =~= domain@);
    }
    r
}

/// The text that `String::from_utf8_lossy` reads from `bytes`: the text they
/// encode, with each invalid sequence replaced by U+FFFD.
pub uninterp spec fn lossy_decode(bytes: Seq<u8>) -> Seq<char>;

/// `String::from_utf8_lossy(bytes).into_owned()`. Claimed of it: the text
/// depends on the bytes alone, and where they are valid UTF-8 it is the text
/// they encode, as its documentation says. What replaces an invalid
/// sequence is left to the name `lossy_decode`.
#[verifier::external_body]
pub(crate) fn utf8_lossy(bytes: &[u8]) -> (r: String)
    ensures
        r@ == lossy_decode(bytes@),
        valid_utf8(bytes@) ==> r@ == decode_utf8(bytes@),
{
    String::from_utf8_lossy(bytes).into_owned()
}

/// The characters of `data` read as UTF-8 (invalid sequences replaced),
/// reversed, as UTF-8 bytes.
pub fn reverse_domain_bytes(data: &[u8]) -> (r: Vec<u8>)
    ensures
        r@ == encode_utf8(lossy_decode(data@).reverse()),
        valid_utf8(data@) ==> r@ == encode_utf8(decode_utf8(data@).reverse()),
{
    let s = utf8_lossy(data);
    let chars = collect_chars(s.as_str());
    encode_reversed(&chars)
}

/// Valid UTF-8 that starts with an ASCII byte stays valid without it.
pub proof fn lemma_valid_utf8_tail(b: Seq<u8>)
    requires
        valid_utf8(b),
        b.len() > 0,
        b[0] < 0x80,
    ensures
        valid_utf8(b.drop_first()),
{
    assert(pop_first_scalar(b) =~= b.drop_first());
}

/// The bytes of a UTF-8 encoding are valid UTF-8, and decode to the text.
pub proof fn lemma_encode_valid(chars: Seq<char>)
    ensures
        valid_utf8(encode_utf8(chars)),
        decode_utf8(encode_utf8(chars)) == chars,
{
    vstd::utf8::encode_utf8_valid_utf8(chars);
    vstd::utf8::encode_utf8_decode_utf8(chars);
}

/// Strings from valid UTF-8 byte strings.
pub fn strings_from_utf8(v: &Vec<Vec<u8>>) -> (r: Vec<String>)
    requires
        forall|i: int| 0 <= i < v@.len() ==> valid_utf8(#[trigger] v@[i]@),
    ensures
        r@.len() == v@.len(),
        forall|i: int| 0 <= i < v@.len() ==> encode_utf8(#[trigger] r@[i]@) == v@[i]@,
{
    let mut r: Vec<String> = Vec::with_capacity(v.len());
    let mut i: usize = 0;
    while i < v.len()
        invariant
            i <= v@.len(),
            r@.len() == i,
            forall|j: int| 0 <= j < v@.len() ==> valid_utf8(#[trigger] v@[j]@),
            forall|j: int| 0 <= j < i ==> encode_utf8(#[trigger] r@[j]@) == v@[j]@,
        decreases v@.len() - i,
    {
        let s = utf8_lossy(v[i].as_slice());
        proof {
            vstd::utf8::decode_utf8_encode_utf8(v@[i as int]@);
        }
        r.push(s);
        i = i + 1;
    }
    r
}

/// The text of `chars`.
pub fn string_from_chars(chars: &Vec<char>) -> (r: String)
    ensures
        r@ == chars@,
{
    let mut bytes: Vec<u8> = Vec::new();
    let mut i: usize = 0;
    assert(chars@.subrange(0, 0) =~= Seq::<char>::empty());
    while i < chars.len()
        invariant
            i <= chars@.len(),
            bytes@ == encode_utf8(chars@.subrange(0, i as int)),
        decreases chars@.len() - i,
    {
        proof {
            assert(chars@.subrange(0, i + 1) =~= chars@.subrange(0, i as int).push(chars@[i as int]));
            lemma_encode_utf8_push(chars@.subrange(0, i as int), chars@[i as int]);
        }
        push_utf8(&mut bytes, chars[i]);
        i = i + 1;
    }
    proof {
        assert(chars@.subrange(0, i as int) =~= chars@);
        lemma_encode_valid(chars@);
    }
    utf8_lossy(bytes.as_slice())
}

/// The decimal digit `d`.
pub open spec fn digit_char(d: nat) -> char {
    (48 + d) as char
}

/// The decimal digits of `n`, most significant first, without leading zeros.
pub open spec fn decimal_text(n: nat) -> Seq<char>
    decreases n,
{
    if n < 10 {
        seq![digit_char(n)]
    } else {
        decimal_text(n / 10).push(digit_char(n % 10))
    }
}

/// Appends the decimal digits of `n`.
pub fn push_decimal(out: &mut Vec<char>, n: u64)
    ensures
        final(out)@ == old(out)@ + decimal_text(n as nat),
    decreases n,
{
    if n >= 10 {
        push_decimal(out, n / 10);
    }
    let d = (n % 10) as u8;
    let c = (48u8 + d) as char;
    proof {
        vstd::utf8::char_u32_cast(c, c as u32);
    }
    assert(c == digit_char((n % 10) as nat));
    out.push(c);
    assert(final(out)@ =~= old(out)@ + decimal_text(n as nat));
}

/// The lower-case hexadecimal digit `d`, below 16.
pub open spec fn hex_char(d: nat) -> char {
    if d < 10 {
        (48 + d) as char
    } else {
        (87 + d) as char
    }
}

/// Two lower-case hexadecimal digits of a byte (what `{:02x}` formats).
pub open spec fn hex_text(b: u8) -> Seq<char> {
    seq![hex_char((b / 16) as nat), hex_char((b % 16) as nat)]
}

/// Appends the two hexadecimal digits of `b`.
pub fn push_hex(out: &mut Vec<char>, b: u8)
    ensures
        final(out)@ == old(out)@ + hex_text(b),
{
    let hi = b / 16;
    let lo = b % 16;
    let c1 = if hi < 10 { (48u8 + hi) as char } else { (87u8 + hi) as char };
    let c2 = if lo < 10 { (48u8 + lo) as char } else { (87u8 + lo) as char };
    assert(c1 == hex_char(hi as nat));
    assert(c2 == hex_char(lo as nat));
    out.push(c1);
    out.push(c2);
    assert(final(out)@ =~= old(out)@ + hex_text(b));
}

/// Appends the characters of `text`.
pub fn push_str(out: &mut Vec<char>, text: &str)
    ensures
        final(out)@ == old(out)@ + text@,
{
    let chars = collect_chars(text);
    let mut i: usize = 0;
    while i < chars.len()
        invariant
            i <= chars@.len(),
            chars@ == text@,
            out@ == old(out)@ + chars@.subrange(0, i as int),
        decreases chars@.len() - i,
    {
        out.push(chars[i]);
        i = i + 1;
        assert(out@ =~= old(out)@ + chars@.subrange(0, i as int));
    }
    assert(chars@.subrange(0, i as int) =~= chars@);
}

/// Reversing the characters of a domain twice gives it back: the reversed
/// bytes decode to the reversed characters, whose reversal is the domain.
pub proof fn lemma_reverse_twice(domain: Seq<char>)
    ensures
        valid_utf8(encode_utf8(domain.reverse())),
        encode_utf8(decode_utf8(encode_utf8(domain.reverse())).reverse()) == encode_utf8(domain),
{
    lemma_encode_valid(domain.reverse());
    assert(domain.reverse().reverse() =~= domain);
}

} // verus!
