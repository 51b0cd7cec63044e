//! The list of rule sets: entries `{"name", "url"}` read from a C header,
//! and where the file of a named rule set is stored.
use vstd::prelude::*;
use vstd::string::StringExecFns;
use vstd::utf8::encode_utf8;
use crate::order::bytes_eq;
use crate::text::{collect_chars, lemma_encode_utf8_push, lemma_encode_valid, push_utf8, utf8_lossy};

verus! {

/// A named rule set and the URL of its file.
pub struct Rule {
    pub key: String,
    pub value: String,
}

/// The rule sets of a list, in the order of the list.
pub struct SrsList {
    pub rules: Vec<Rule>,
}

/// A Unicode White_Space character: what `\s` matches in a pattern of the
/// `regex` crate.
pub open spec fn is_space(c: char) -> bool {
    let v = c as u32;
    (0x09 <= v <= 0x0d) || v == 0x20 || v == 0x85 || v == 0xa0 || v == 0x1680 || (0x2000 <= v
        <= 0x200a) || v == 0x2028 || v == 0x2029 || v == 0x202f || v == 0x205f || v == 0x3000
}

/// The end of the run of characters other than `"` that starts at `i`.
pub open spec fn quote_free_end(t: Seq<char>, i: int) -> int
    decreases t.len() - i,
{
    if i >= t.len() || t[i] == '"' {
        i
    } else {
        quote_free_end(t, i + 1)
    }
}

/// The end of the run of white space that starts at `i`.
pub open spec fn space_end(t: Seq<char>, i: int) -> int
    decreases t.len() - i,
{
    if i >= t.len() || !is_space(t[i]) {
        i
    } else {
        space_end(t, i + 1)
    }
}

/// An entry at position `i`: `{"`, a key of one or more characters other
/// than `"`, `",`, white space, `"`, a value of one or more characters other
/// than `"`, and `"}`; with the position after it. This is what the pattern
/// `\{"([^"]+)",\s*"([^"]+)"\}` matches from `i`, and it matches at most one
/// way there.
pub open spec fn entry_at(t: Seq<char>, i: int) -> Option<(Seq<char>, Seq<char>, int)> {
    if !(0 <= i && i + 1 < t.len() && t[i] == '{' && t[i + 1] == '"') {
        None
    } else {
        let k_end = quote_free_end(t, i + 2);
        if k_end == i + 2 || !(k_end + 1 < t.len() && t[k_end] == '"' && t[k_end + 1] == ',') {
            None
        } else {
            let s_end = space_end(t, k_end + 2);
            if !(s_end < t.len() && t[s_end] == '"') {
                None
            } else {
                let v_end = quote_free_end(t, s_end + 1);
                if v_end == s_end + 1 || !(v_end + 1 < t.len() && t[v_end] == '"' && t[v_end + 1]
                    == '}') {
                    None
                } else {
                    Some((t.subrange(i + 2, k_end), t.subrange(s_end + 1, v_end), v_end + 2))
                }
            }
        }
    }
}

pub proof fn lemma_quote_free_end(t: Seq<char>, i: int)
    ensures
        i <= quote_free_end(t, i),
        i <= t.len() ==> quote_free_end(t, i) <= t.len(),
        forall|j: int| i <= j < quote_free_end(t, i) ==> t[j] != '"',
    decreases t.len() - i,
{
    if !(i >= t.len() || t[i] == '"') {
        lemma_quote_free_end(t, i + 1);
    }
}

pub proof fn lemma_space_end(t: Seq<char>, i: int)
    ensures
        i <= space_end(t, i),
        i <= t.len() ==> space_end(t, i) <= t.len(),
    decreases t.len() - i,
{
    if !(i >= t.len() || !is_space(t[i])) {
        lemma_space_end(t, i + 1);
    }
}

/// A run of characters other than `"` that ends at a `"` ends there.
proof fn lemma_quote_free_run(t: Seq<char>, i: int, e: int)
    requires
        0 <= i <= e < t.len(),
        forall|j: int| i <= j < e ==> t[j] != '"',
        t[e] == '"',
    ensures
        quote_free_end(t, i) == e,
    decreases e - i,
{
    if i < e {
        lemma_quote_free_run(t, i + 1, e);
    }
}

/// The text of the entry `{"k", "v"}`.
pub open spec fn entry_text(k: Seq<char>, v: Seq<char>) -> Seq<char> {
    seq!['{', '"'] + k + seq!['"', ',', ' ', '"'] + v + seq!['"', '}']
}

/// Wherever the text holds `{"k", "v"}`, with `k` and `v` non-empty and free
/// of `"`, an entry is read there with key `k` and value `v`, and reading
/// goes on just after it.
pub proof fn lemma_entry_reads_back(t: Seq<char>, i: int, k: Seq<char>, v: Seq<char>)
    requires
        0 <= i,
        k.len() > 0,
        v.len() > 0,
        forall|j: int| 0 <= j < k.len() ==> k[j] != '"',
        forall|j: int| 0 <= j < v.len() ==> v[j] != '"',
        i + entry_text(k, v).len() <= t.len(),
        t.subrange(i, i + entry_text(k, v).len()) == entry_text(k, v),
    ensures
        entry_at(t, i) == Some((k, v, i + entry_text(k, v).len())),
{
    let pat = entry_text(k, v);
    let n = k.len() as int;
    let m = v.len() as int;
    assert forall|x: int| 0 <= x < pat.len() implies t[i + x] == pat[x] by {
        assert(t.subrange(i, i + pat.len())[x] == t[i + x]);
    }
    assert(pat[0] == '{' && pat[1] == '"');
    assert forall|j: int| 0 <= j < n implies pat[2 + j] == k[j] by {}
    assert(pat[2 + n] == '"' && pat[3 + n] == ',' && pat[4 + n] == ' ' && pat[5 + n] == '"');
    assert forall|j: int| 0 <= j < m implies pat[6 + n + j] == v[j] by {}
    assert(pat[6 + n + m] == '"' && pat[7 + n + m] == '}');
    assert(t[i + 2 + n] == '"');
    assert forall|j: int| i + 2 <= j < i + 2 + n implies t[j] != '"' by {
        assert(t[j] == pat[j - i]);
        assert(pat[2 + (j - i - 2)] == k[j - i - 2]);
    }
    lemma_quote_free_run(t, i + 2, i + 2 + n);
    assert(t[i + 4 + n] == ' ');
    assert(is_space(t[i + 4 + n]));
    assert(!is_space(t[i + 5 + n]));
    assert(space_end(t, i + 5 + n) == i + 5 + n);
    assert(space_end(t, i + 4 + n) == i + 5 + n);
    assert forall|j: int| i + 6 + n <= j < i + 6 + n + m implies t[j] != '"' by {
        assert(t[j] == pat[j - i]);
        assert(pat[6 + n + (j - i - 6 - n)] == v[j - i - 6 - n]);
    }
    lemma_quote_free_run(t, i + 6 + n, i + 6 + n + m);
    assert(t.subrange(i + 2, i + 2 + n) =~= k) by {
        assert forall|j: int| 0 <= j < n implies t.subrange(i + 2, i + 2 + n)[j] == k[j] by {
            assert(t[i + 2 + j] == pat[2 + j]);
        }
    }
    assert(t.subrange(i + 6 + n, i + 6 + n + m) =~= v) by {
        assert forall|j: int| 0 <= j < m implies t.subrange(i + 6 + n, i + 6 + n + m)[j] == v[j] by {
            assert(t[i + 6 + n + j] == pat[6 + n + j]);
        }
    }
}

/// A text that is just the entry `{"k", "v"}`, with `k` and `v` non-empty
/// and free of `"`, lists that one rule set: `from_text` gives it alone.
pub proof fn lemma_single_entry(k: Seq<char>, v: Seq<char>)
    requires
        k.len() > 0,
        v.len() > 0,
        forall|j: int| 0 <= j < k.len() ==> k[j] != '"',
        forall|j: int| 0 <= j < v.len() ==> v[j] != '"',
    ensures
        entries_from(entry_text(k, v), 0) == seq![(k, v)],
{
    let t = entry_text(k, v);
    assert(t.subrange(0, t.len() as int) =~= t);
    lemma_entry_reads_back(t, 0, k, v);
    assert(entries_from(t, t.len() as int) =~= Seq::<(Seq<char>, Seq<char>)>::empty());
    assert(entries_from(t, 0) =~= seq![(k, v)] + entries_from(t, t.len() as int));
}

/// An entry ends after it starts.
pub proof fn lemma_entry_end(t: Seq<char>, i: int)
    ensures
        entry_at(t, i) matches Some((k, v, e)) ==> i < e <= t.len(),
{
    if 0 <= i && i + 1 < t.len() {
        lemma_quote_free_end(t, i + 2);
        let k_end = quote_free_end(t, i + 2);
        lemma_space_end(t, k_end + 2);
        let s_end = space_end(t, k_end + 2);
        lemma_quote_free_end(t, s_end + 1);
    }
}

/// The entries of `t` from position `i` on: the leftmost entry, then those
/// after it, as the successive matches of the pattern are found.
pub open spec fn entries_from(t: Seq<char>, i: int) -> Seq<(Seq<char>, Seq<char>)>
    decreases t.len() - i,
{
    if i >= t.len() {
        Seq::empty()
    } else {
        match entry_at(t, i) {
            Some((k, v, e)) => {
                proof {
                    lemma_entry_end(t, i);
                }
                seq![(k, v)] + entries_from(t, e)
            },
            None => entries_from(t, i + 1),
        }
    }
}

/// The key and the value of each rule.
pub open spec fn rules_view(v: Seq<Rule>) -> Seq<(Seq<char>, Seq<char>)> {
    v.map_values(|r: Rule| (r.key@, r.value@))
}

/// Whether `c` is white space in the sense of `is_space`.
fn char_is_space(c: char) -> (r: bool)
    ensures
        r == is_space(c),
{
    let v = c as u32;
    (0x09 <= v && v <= 0x0d) || v == 0x20 || v == 0x85 || v == 0xa0 || v == 0x1680 || (0x2000 <= v
        && v <= 0x200a) || v == 0x2028 || v == 0x2029 || v == 0x202f || v == 0x205f || v == 0x3000
}

/// The text of `t[a..b]`.
fn string_of(t: &Vec<char>, a: usize, b: usize) -> (r: String)
    requires
        a <= b <= t@.len(),
    ensures
        r@ == t@.subrange(a as int, b as int),
{
    let mut bytes: Vec<u8> = Vec::new();
    let mut i = a;
    assert(t@.subrange(a as int, a as int) =~= Seq::<char>::empty());
    while i < b
        invariant
            a <= i <= b <= t@.len(),
            bytes@ == encode_utf8(t@.subrange(a as int, i as int)),
        decreases b - i,
    {
        proof {
            assert(t@.subrange(a as int, i + 1) =~= t@.subrange(a as int, i as int).push(t@[i as int]));
            lemma_encode_utf8_push(t@.subrange(a as int, i as int), t@[i as int]);
        }
        push_utf8(&mut bytes, t[i]);
        i = i + 1;
    }
    proof {
        lemma_encode_valid(t@.subrange(a as int, b as int));
    }
    utf8_lossy(bytes.as_slice())
}

/// The end of the run of characters other than `"` from `i` on.
fn find_quote(t: &Vec<char>, i: usize) -> (r: usize)
    requires
        i <= t@.len(),
    ensures
        r == quote_free_end(t@, i as int),
{
    let mut j = i;
    while j < t.len() && t[j] != '"'
        invariant
            i <= j <= t@.len(),
            quote_free_end(t@, i as int) == quote_free_end(t@, j as int),
        decreases t@.len() - j,
    {
        j = j + 1;
    }
    j
}

/// The end of the run of white space from `i` on.
fn skip_spaces(t: &Vec<char>, i: usize) -> (r: usize)
    requires
        i <= t@.len(),
    ensures
        r == space_end(t@, i as int),
{
    let mut j = i;
    while j < t.len() && char_is_space(t[j])
        invariant
            i <= j <= t@.len(),
            space_end(t@, i as int) == space_end(t@, j as int),
        decreases t@.len() - j,
    {
        j = j + 1;
    }
    j
}

/// The entry at position `i`, if there is one.
fn read_entry(t: &Vec<char>, i: usize) -> (r: Option<(String, String, usize)>)
    requires
        i <= t@.len(),
    ensures
        match entry_at(t@, i as int) {
            Some((k, v, e)) => r matches Some((key, value, end)) && key@ == k && value@ == v && end == e,
            None => r is None,
        },
{
    let n = t.len();
    if !(n - i > 1 && t[i] == '{' && t[i + 1] == '"') {
        return None;
    }
    proof {
        lemma_quote_free_end(t@, i + 2);
    }
    let k_end = find_quote(t, i + 2);
    if k_end == i + 2 || !(n - k_end > 1 && t[k_end] == '"' && t[k_end + 1] == ',') {
        return None;
    }
    proof {
        lemma_space_end(t@, k_end + 2);
    }
    let s_end = skip_spaces(t, k_end + 2);
    if !(s_end < n && t[s_end] == '"') {
        return None;
    }
    proof {
        lemma_quote_free_end(t@, s_end + 1);
    }
    let v_end = find_quote(t, s_end + 1);
    if v_end == s_end + 1 || !(n - v_end > 1 && t[v_end] == '"' && t[v_end + 1] == '}') {
        return None;
    }
    let key = string_of(t, i + 2, k_end);
    let value = string_of(t, s_end + 1, v_end);
    Some((key, value, v_end + 2))
}

impl SrsList {
    /// The rule sets that a list names: each entry `{"name", "url"}` of the
    /// text, in order.
    pub fn from_text(text: &str) -> (r: SrsList)
        ensures
            rules_view(r.rules@) == entries_from(text@, 0),
    {
        let t = collect_chars(text);
        let mut rules: Vec<Rule> = Vec::new();
        let mut i: usize = 0;
        assert(rules_view(rules@) =~= Seq::<(Seq<char>, Seq<char>)>::empty());
        while i < t.len()
            invariant
                t@ == text@,
                i <= t@.len(),
                entries_from(t@, 0) == rules_view(rules@) + entries_from(t@, i as int),
            decreases t@.len() - i,
        {
            match read_entry(&t, i) {
                Some((key, value, end)) => {
                    proof {
                        lemma_entry_end(t@, i as int);
                        assert(rules_view(rules@.push(Rule { key, value })) =~= rules_view(rules@).push(
                            (key@, value@),
                        ));
                        assert(rules_view(rules@) + entries_from(t@, i as int) =~= rules_view(
                            rules@,
                        ).push((key@, value@)) + entries_from(t@, end as int));
                    }
                    rules.push(Rule { key, value });
                    i = end;
                },
                None => {
                    i = i + 1;
                },
            }
        }
        assert(rules_view(rules@) + Seq::<(Seq<char>, Seq<char>)>::empty() =~= rules_view(rules@));
        SrsList { rules }
    }

    /// The first rule set named `name`.
    pub fn find(&self, name: &str) -> (r: Option<usize>)
        ensures
            match r {
                Some(i) => i < self.rules@.len() && self.rules@[i as int].key@ == name@ && forall|j: int|
                    0 <= j < i ==> #[trigger] self.rules@[j].key@ != name@,
                None => forall|j: int| 0 <= j < self.rules@.len() ==> #[trigger] self.rules@[j].key@ != name@,
            },
    {
        let mut i: usize = 0;
        while i < self.rules.len()
            invariant
                i <= self.rules@.len(),
                forall|j: int| 0 <= j < i ==> #[trigger] self.rules@[j].key@ != name@,
            decreases self.rules@.len() - i,
        {
            let key = self.rules[i].key.as_str();
            let same = bytes_eq(key.as_bytes(), name.as_bytes());
            proof {
                lemma_encode_valid(key@);
                lemma_encode_valid(name@);
            }
            if same {
                return Some(i);
            }
            i = i + 1;
        }
        None
    }

    /// Where the file of the rule set `name` is stored and the URL it is
    /// fetched from: `geodb/` followed by the name, and the URL of the first
    /// rule set of that name; `None` where the list has no such rule set.
    pub fn geodb_target(&self, name: &str) -> (r: Option<(String, String)>)
        ensures
            match r {
                Some((path, url)) => exists|i: int|
                    0 <= i < self.rules@.len() && self.rules@[i].key@ == name@ && path@ == "geodb/"@
                        + self.rules@[i].key@ && url@ == self.rules@[i].value@ && forall|j: int|
                        0 <= j < i ==> #[trigger] self.rules@[j].key@ != name@,
                None => forall|j: int| 0 <= j < self.rules@.len() ==> #[trigger] self.rules@[j].key@ != name@,
            },
    {
        match self.find(name) {
            Some(i) => {
                let rule = &self.rules[i];
                let path = String::from_str("geodb/").concat(rule.key.as_str());
                let url = rule.value.clone();
                Some((path, url))
            },
            None => None,
        }
    }
}

} // verus!
