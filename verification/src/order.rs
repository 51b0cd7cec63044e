//! Byte strings in lexicographic order: the order of `[u8]`, `Vec<u8>` and
//! `str`, with sorted lists of them used as sets.
use vstd::prelude::*;

verus! {

/// `a` comes before `b` in lexicographic byte order: at the first position
/// where they differ `a` has the smaller byte, or `a` is a proper prefix of
/// `b`.
pub open spec fn lex_lt(a: Seq<u8>, b: Seq<u8>) -> bool
    decreases a.len(),
{
    if a.len() == 0 {
        b.len() > 0
    } else if b.len() == 0 {
        false
    } else if a[0] != b[0] {
        a[0] < b[0]
    } else {
        lex_lt(a.drop_first(), b.drop_first())
    }
}

/// Each element comes before every later one.
pub open spec fn sorted_strict(v: Seq<Seq<u8>>) -> bool {
    forall|i: int, j: int| 0 <= i < j < v.len() ==> lex_lt(#[trigger] v[i], #[trigger] v[j])
}

/// No element comes before an earlier one.
pub open spec fn sorted(v: Seq<Seq<u8>>) -> bool {
    forall|i: int, j: int| 0 <= i < j < v.len() ==> !lex_lt(#[trigger] v[j], #[trigger] v[i])
}

/// The bytes of each string.
pub open spec fn bytes_view(v: Seq<Vec<u8>>) -> Seq<Seq<u8>> {
    v.map_values(|x: Vec<u8>| x@)
}

pub proof fn lemma_bytes_view_push(v: Seq<Vec<u8>>, x: Vec<u8>)
    ensures
        bytes_view(v.push(x)) == bytes_view(v).push(x@),
{
    assert(bytes_view(v.push(x)) =~= bytes_view(v).push(x@));
}

/// Nothing comes before itself.
pub proof fn lemma_lex_irreflexive(a: Seq<u8>)
    ensures
        !lex_lt(a, a),
    decreases a.len(),
{
    if a.len() > 0 {
        lemma_lex_irreflexive(a.drop_first());
    }
}

/// Of two strings at most one comes before the other.
pub proof fn lemma_lex_asymmetric(a: Seq<u8>, b: Seq<u8>)
    ensures
        lex_lt(a, b) ==> !lex_lt(b, a),
    decreases a.len(),
{
    if a.len() > 0 && b.len() > 0 && a[0] == b[0] {
        lemma_lex_asymmetric(a.drop_first(), b.drop_first());
    }
}

/// The order is transitive.
pub proof fn lemma_lex_transitive(a: Seq<u8>, b: Seq<u8>, c: Seq<u8>)
    requires
        lex_lt(a, b),
        lex_lt(b, c),
    ensures
        lex_lt(a, c),
    decreases a.len(),
{
    if a.len() > 0 && b.len() > 0 && c.len() > 0 && a[0] == b[0] && b[0] == c[0] {
        lemma_lex_transitive(a.drop_first(), b.drop_first(), c.drop_first());
    }
}

/// Of two different strings one comes before the other.
pub proof fn lemma_lex_total(a: Seq<u8>, b: Seq<u8>)
    ensures
        a != b ==> lex_lt(a, b) || lex_lt(b, a),
    decreases a.len(),
{
    if a.len() > 0 && b.len() > 0 && a[0] == b[0] {
        lemma_lex_total(a.drop_first(), b.drop_first());
        if a.drop_first() == b.drop_first() {
            assert(a =~= seq![a[0]] + a.drop_first());
            assert(b =~= seq![b[0]] + b.drop_first());
        }
    } else if a.len() == 0 && b.len() == 0 {
        assert(a =~= b);
    }
}

/// A proper prefix comes first.
pub proof fn lemma_lex_prefix(a: Seq<u8>, b: Seq<u8>)
    requires
        a.len() < b.len(),
        b.subrange(0, a.len() as int) == a,
    ensures
        lex_lt(a, b),
    decreases a.len(),
{
    if a.len() > 0 {
        assert(a[0] == b.subrange(0, a.len() as int)[0]);
        assert(b.drop_first().subrange(0, a.drop_first().len() as int) =~= a.drop_first()) by {
            assert forall|i: int| 0 <= i < a.drop_first().len() implies b.drop_first()[i] == a.drop_first()[i] by {
                assert(b.subrange(0, a.len() as int)[i + 1] == b[i + 1]);
                assert(b.subrange(0, a.len() as int)[i + 1] == a[i + 1]);
            }
        }
        lemma_lex_prefix(a.drop_first(), b.drop_first());
    }
}

/// Of two strings that agree up to position `i` and differ there, the one
/// with the smaller byte comes first.
pub proof fn lemma_lex_differ(a: Seq<u8>, b: Seq<u8>, i: int)
    requires
        0 <= i < a.len(),
        i < b.len(),
        a.subrange(0, i) == b.subrange(0, i),
        a[i] < b[i],
    ensures
        lex_lt(a, b),
    decreases i,
{
    if i > 0 {
        assert(a[0] == a.subrange(0, i)[0]);
        assert(b[0] == b.subrange(0, i)[0]);
        assert(a.drop_first().subrange(0, i - 1) =~= b.drop_first().subrange(0, i - 1)) by {
            assert forall|j: int| 0 <= j < i - 1 implies a.drop_first()[j] == b.drop_first()[j] by {
                assert(a.subrange(0, i)[j + 1] == a[j + 1]);
                assert(b.subrange(0, i)[j + 1] == b[j + 1]);
                assert(a.subrange(0, i)[j + 1] == b.subrange(0, i)[j + 1]);
            }
        }
        lemma_lex_differ(a.drop_first(), b.drop_first(), i - 1);
    }
}

/// Two strictly sorted lists that hold the same strings are the same list.
pub proof fn lemma_sorted_strict_unique(x: Seq<Seq<u8>>, y: Seq<Seq<u8>>)
    requires
        sorted_strict(x),
        sorted_strict(y),
        forall|e: Seq<u8>| x.contains(e) <==> y.contains(e),
    ensures
        x == y,
    decreases x.len(),
{
    if x.len() == 0 {
        if y.len() > 0 {
            assert(y.contains(y[0]));
        }
        assert(x =~= y);
    } else {
        assert(x.contains(x[0]));
        let k = choose|k: int| 0 <= k < y.len() && y[k] == x[0];
        assert(y.contains(y[0]));
        let m = choose|m: int| 0 <= m < x.len() && x[m] == y[0];
        if k > 0 {
            assert(lex_lt(y[0], y[k]));
            if m == 0 {
                lemma_lex_irreflexive(y[0]);
            } else {
                assert(lex_lt(x[0], x[m]));
                lemma_lex_asymmetric(x[0], y[0]);
            }
        }
        assert(x[0] == y[0]);
        let xs = x.drop_first();
        let ys = y.drop_first();
        assert forall|e: Seq<u8>| xs.contains(e) <==> ys.contains(e) by {
            if xs.contains(e) {
                let a = choose|a: int| 0 <= a < xs.len() && xs[a] == e;
                assert(x[a + 1] == e);
                assert(lex_lt(x[0], x[a + 1]));
                lemma_lex_irreflexive(e);
                assert(y.contains(e));
                let b = choose|b: int| 0 <= b < y.len() && y[b] == e;
                assert(b != 0);
                assert(ys[b - 1] == e);
            }
            if ys.contains(e) {
                let a = choose|a: int| 0 <= a < ys.len() && ys[a] == e;
                assert(y[a + 1] == e);
                assert(lex_lt(y[0], y[a + 1]));
                lemma_lex_irreflexive(e);
                assert(x.contains(e));
                let b = choose|b: int| 0 <= b < x.len() && x[b] == e;
                assert(b != 0);
                assert(xs[b - 1] == e);
            }
        }
        lemma_sorted_strict_unique(xs, ys);
        assert(x =~= seq![x[0]] + xs);
        assert(y =~= seq![y[0]] + ys);
    }
}

/// Whether `a` comes before `b` in lexicographic byte order (what `<` on
/// byte slices gives).
pub fn bytes_lt(a: &[u8], b: &[u8]) -> (r: bool)
    ensures
        r == lex_lt(a@, b@),
{
    let mut i: usize = 0;
    assert(a@.subrange(0, a@.len() as int) =~= a@);
    assert(b@.subrange(0, b@.len() as int) =~= b@);
    while i < a.len() && i < b.len()
        invariant
            i <= a@.len(),
            i <= b@.len(),
            lex_lt(a@, b@) == lex_lt(a@.subrange(i as int, a@.len() as int), b@.subrange(i as int, b@.len() as int)),
        decreases a@.len() - i,
    {
        if a[i] != b[i] {
            return a[i] < b[i];
        }
        proof {
            let sa = a@.subrange(i as int, a@.len() as int);
            let sb = b@.subrange(i as int, b@.len() as int);
            assert(sa.drop_first() =~= a@.subrange(i + 1, a@.len() as int));
            assert(sb.drop_first() =~= b@.subrange(i + 1, b@.len() as int));
        }
        i = i + 1;
    }
    i < b.len()
}

/// Whether the two byte strings are equal.
pub fn bytes_eq(a: &[u8], b: &[u8]) -> (r: bool)
    ensures
        r == (a@ == b@),
{
    if a.len() != b.len() {
        return false;
    }
    let mut i: usize = 0;
    while i < a.len()
        invariant
            a@.len() == b@.len(),
            i <= a@.len(),
            forall|j: int| 0 <= j < i ==> a@[j] == b@[j],
        decreases a@.len() - i,
    {
        if a[i] != b[i] {
            return false;
        }
        i = i + 1;
    }
    assert(a@ =~= b@);
    true
}

/// `<[Vec<u8>]>::sort`. Claimed of it, as its documentation says: it
/// reorders the strings (the same strings, each as often) so that none comes
/// before an earlier one in the lexicographic order of byte vectors.
#[verifier::external_body]
pub(crate) fn sort_byte_strings(v: &mut Vec<Vec<u8>>)
    ensures
        bytes_view(final(v)@).to_multiset() == bytes_view(old(v)@).to_multiset(),
        sorted(bytes_view(final(v)@)),
{
    v.sort();
}

/// The strings of a sorted list, each once, in order.
pub fn dedup_sorted(v: &Vec<Vec<u8>>) -> (r: Vec<Vec<u8>>)
    requires
        sorted(bytes_view(v@)),
    ensures
        sorted_strict(bytes_view(r@)),
        forall|x: Seq<u8>| bytes_view(r@).contains(x) <==> bytes_view(v@).contains(x),
{
    let ghost sv = bytes_view(v@);
    let mut r: Vec<Vec<u8>> = Vec::new();
    let mut i: usize = 0;
    while i < v.len()
        invariant
            sv == bytes_view(v@),
            sorted(sv),
            i <= v@.len(),
            sorted_strict(bytes_view(r@)),
            i > 0 ==> bytes_view(r@).len() > 0 && bytes_view(r@).last() == sv[i - 1],
            i == 0 ==> r@.len() == 0,
            forall|x: Seq<u8>| bytes_view(r@).contains(x) <==> sv.subrange(0, i as int).contains(x),
        decreases v@.len() - i,
    {
        let ghost rv = bytes_view(r@);
        let x = &v[i];
        let same = r.len() > 0 && bytes_eq(r[r.len() - 1].as_slice(), x.as_slice());
        if !same {
            let c = x.clone();
            assert(c@ =~= x@);
            proof {
                lemma_bytes_view_push(r@, c);
                if i > 0 {
                    assert(!lex_lt(sv[i as int], sv[i - 1]));
                    lemma_lex_total(sv[i - 1], sv[i as int]);
                    assert(lex_lt(rv.last(), c@));
                    assert forall|a: int, b: int| 0 <= a < b < rv.len() + 1 implies lex_lt(
                        #[trigger] rv.push(c@)[a],
                        #[trigger] rv.push(c@)[b],
                    ) by {
                        if b == rv.len() && a < rv.len() - 1 {
                            lemma_lex_transitive(rv[a], rv.last(), c@);
                        }
                    }
                }
            }
            r.push(c);
        }
        proof {
            let before = sv.subrange(0, i as int);
            let after = sv.subrange(0, i + 1);
            assert(after =~= before.push(sv[i as int]));
            assert forall|y: Seq<u8>| bytes_view(r@).contains(y) <==> after.contains(y) by {
                if after.contains(y) {
                    let k = choose|k: int| 0 <= k < after.len() && after[k] == y;
                    if k < i {
                        assert(before[k] == y);
                        assert(before.contains(y));
                    }
                }
                if before.contains(y) {
                    let k = choose|k: int| 0 <= k < before.len() && before[k] == y;
                    assert(after[k] == y);
                }
                if same {
                    assert(bytes_view(r@) == rv);
                    assert(rv[rv.len() - 1] == sv[i as int]);
                } else {
                    assert(bytes_view(r@) == rv.push(x@));
                    if bytes_view(r@).contains(y) {
                        let k = choose|k: int| 0 <= k < bytes_view(r@).len() && bytes_view(r@)[k] == y;
                        if k < rv.len() {
                            assert(rv[k] == y);
                        }
                    }
                    if rv.contains(y) {
                        let k = choose|k: int| 0 <= k < rv.len() && rv[k] == y;
                        assert(bytes_view(r@)[k] == y);
                    }
                    assert(bytes_view(r@)[rv.len() as int] == x@);
                }
                assert(after[i as int] == sv[i as int]);
            }
        }
        i = i + 1;
    }
    assert(sv.subrange(0, i as int) =~= sv);
    r
}

/// Whether `x` is one of the strings of a strictly sorted list (binary
/// search).
pub fn contains_sorted(v: &Vec<Vec<u8>>, x: &[u8]) -> (r: bool)
    requires
        sorted_strict(bytes_view(v@)),
    ensures
        r == bytes_view(v@).contains(x@),
{
    let ghost sv = bytes_view(v@);
    let mut lo: usize = 0;
    let mut hi: usize = v.len();
    while lo < hi
        invariant
            sv == bytes_view(v@),
            sorted_strict(sv),
            lo <= hi <= sv.len(),
            forall|j: int| 0 <= j < lo ==> lex_lt(#[trigger] sv[j], x@),
            forall|j: int| hi <= j < sv.len() ==> lex_lt(x@, #[trigger] sv[j]),
        decreases hi - lo,
    {
        let mid = lo + (hi - lo) / 2;
        let m = v[mid].as_slice();
        assert(m@ == sv[mid as int]);
        if bytes_lt(m, x) {
            proof {
                assert forall|j: int| 0 <= j < mid + 1 implies lex_lt(#[trigger] sv[j], x@) by {
                    if j < mid {
                        lemma_lex_transitive(sv[j], sv[mid as int], x@);
                    }
                }
            }
            lo = mid + 1;
        } else if bytes_lt(x, m) {
            proof {
                assert forall|j: int| mid <= j < sv.len() implies lex_lt(x@, #[trigger] sv[j]) by {
                    if j > mid {
                        lemma_lex_transitive(x@, sv[mid as int], sv[j]);
                    }
                }
            }
            hi = mid;
        } else {
            proof {
                lemma_lex_total(m@, x@);
            }
            return true;
        }
    }
    proof {
        if sv.contains(x@) {
            let j = choose|j: int| 0 <= j < sv.len() && sv[j] == x@;
            lemma_lex_irreflexive(x@);
            if j < lo {
                assert(lex_lt(sv[j], x@));
            } else {
                assert(lex_lt(x@, sv[j]));
            }
        }
    }
    false
}

/// A sequence with one more element holds what it held, and that element.
pub proof fn lemma_push_contains(v: Seq<Seq<u8>>, x: Seq<u8>)
    ensures
        forall|y: Seq<u8>| #[trigger] v.push(x).contains(y) <==> v.contains(y) || y == x,
{
    assert forall|y: Seq<u8>| #[trigger] v.push(x).contains(y) <==> v.contains(y) || y == x by {
        if v.push(x).contains(y) {
            let k = choose|k: int| 0 <= k < v.push(x).len() && v.push(x)[k] == y;
            if k < v.len() {
                assert(v[k] == y);
            }
        }
        if v.contains(y) {
            let k = choose|k: int| 0 <= k < v.len() && v[k] == y;
            assert(v.push(x)[k] == y);
        }
        assert(v.push(x)[v.len() as int] == x);
    }
}

/// Sorting keeps the strings that a list holds.
pub proof fn lemma_same_multiset_contains(a: Seq<Seq<u8>>, b: Seq<Seq<u8>>)
    requires
        a.to_multiset() == b.to_multiset(),
    ensures
        forall|y: Seq<u8>| a.contains(y) <==> b.contains(y),
{
    assert forall|y: Seq<u8>| a.contains(y) <==> b.contains(y) by {
        vstd::seq_lib::to_multiset_contains(a, y);
        vstd::seq_lib::to_multiset_contains(b, y);
    }
}

/// Sorts a list of strings and keeps each string once.
pub fn sort_dedup(v: Vec<Vec<u8>>) -> (r: Vec<Vec<u8>>)
    ensures
        sorted_strict(bytes_view(r@)),
        forall|x: Seq<u8>| bytes_view(r@).contains(x) <==> bytes_view(v@).contains(x),
{
    let mut v = v;
    let ghost before = bytes_view(v@);
    sort_byte_strings(&mut v);
    proof {
        lemma_same_multiset_contains(bytes_view(v@), before);
    }
    dedup_sorted(&v)
}

} // verus!
