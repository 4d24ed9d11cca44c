//! Small text helpers shared by the modules that parse or compare names.

use vstd::prelude::*;

verus! {

/// Builds a `String` whose characters are exactly `chars`.
#[verifier::external_body]
pub(crate) fn string_from_chars(chars: &[char]) -> (s: String)
    ensures
        s@ == chars@,
{
    chars.iter().collect()
}

/// The characters of `s`, in order.
pub fn chars_of(s: &str) -> (v: Vec<char>)
    ensures
        v@ == s@,
{
    let mut v: Vec<char> = Vec::new();
    for c in it: s.chars()
        invariant
            v@ == it.seq().take(it.index() as int),
            it.seq() == s@,
    {
        v.push(c);
    }
    v
}

/// Are two texts the same characters?
pub fn same_text(a: &str, b: &str) -> (r: bool)
    ensures
        r == (a@ == b@),
{
    let x = chars_of(a);
    let y = chars_of(b);
    same_chars(&x, &y)
}

/// Are two character sequences equal?
pub fn same_chars(x: &[char], y: &[char]) -> (r: bool)
    ensures
        r == (x@ == y@),
{
    if x.len() != y.len() {
        return false;
    }
    let mut i: usize = 0;
    while i < x.len()
        invariant
            x@.len() == y@.len(),
            i <= x@.len(),
            forall|j: int| 0 <= j < i ==> x@[j] == y@[j],
        decreases x@.len() - i,
    {
        if x[i] != y[i] {
            return false;
        }
        i += 1;
    }
    assert(x@ =~= y@);
    true
}

} // verus!

verus! {

/// The decimal digits.
pub const DECIMAL_DIGITS: [char; 10] = ['0', '1', '2', '3', '4', '5', '6', '7', '8', '9'];

/// `n` written in decimal, with no leading zeros.
pub open spec fn decimal(n: nat) -> Seq<char>
    decreases n,
{
    if n < 10 {
        seq![DECIMAL_DIGITS@[n as int]]
    } else {
        decimal(n / 10).push(DECIMAL_DIGITS@[(n % 10) as int])
    }
}

/// `n` written in decimal.
pub fn decimal_text(n: u64) -> (s: String)
    ensures
        s@ == decimal(n as nat),
    decreases n,
{
    if n < 10 {
        let d = [DECIMAL_DIGITS[n as usize]];
        string_from_chars(&d)
    } else {
        let mut s = decimal_text(n / 10);
        let d = [DECIMAL_DIGITS[(n % 10) as usize]];
        let t = string_from_chars(&d);
        s.append(t.as_str());
        proof {
            assert(s@ =~= decimal((n / 10) as nat).push(DECIMAL_DIGITS@[(n % 10) as int]));
        }
        s
    }
}

} // verus!

verus! {

/// The characters of each string, in order.
pub open spec fn strs(v: Seq<String>) -> Seq<Seq<char>> {
    v.map_values(|s: String| s@)
}

/// Where `s` first occurs in `v`, searching from index `i` on.
pub open spec fn index_from(v: Seq<Seq<char>>, s: Seq<char>, i: int) -> Option<int>
    decreases v.len() - i,
{
    if i < 0 || i >= v.len() {
        None
    } else if v[i] == s {
        Some(i)
    } else {
        index_from(v, s, i + 1)
    }
}

/// A found index holds the text searched for, and nothing before it (from `i` on) does.
pub proof fn lemma_index_from(v: Seq<Seq<char>>, s: Seq<char>, i: int)
    requires
        0 <= i,
    ensures
        match index_from(v, s, i) {
            Some(k) => i <= k < v.len() && v[k] == s && forall|j: int| i <= j < k ==> v[j] != s,
            None => forall|j: int| i <= j < v.len() ==> v[j] != s,
        },
    decreases v.len() - i,
{
    if i < v.len() && v[i] != s {
        lemma_index_from(v, s, i + 1);
    }
}

/// The position of the first string in `v` equal to `s`.
pub fn find_text(v: &[String], s: &str) -> (r: Option<usize>)
    ensures
        match r {
            Some(k) => index_from(strs(v@), s@, 0) == Some(k as int),
            None => index_from(strs(v@), s@, 0) is None,
        },
{
    let mut i: usize = 0;
    while i < v.len()
        invariant
            i <= v@.len(),
            index_from(strs(v@), s@, 0) == index_from(strs(v@), s@, i as int),
        decreases v@.len() - i,
    {
        if same_text(v[i].as_str(), s) {
            return Some(i);
        }
        i += 1;
    }
    None
}

/// Does `v` hold a string equal to `s`?
pub fn holds_text(v: &[String], s: &str) -> (b: bool)
    ensures
        b == strs(v@).contains(s@),
{
    let r = find_text(v, s);
    proof {
        lemma_index_from(strs(v@), s@, 0);
    }
    r.is_some()
}

/// `a` sorts strictly before `b`: character by character by code point, a proper prefix first.
pub open spec fn text_lt(a: Seq<char>, b: Seq<char>) -> bool
    decreases a.len(),
{
    if a.len() == 0 {
        b.len() > 0
    } else if b.len() == 0 {
        false
    } else if a[0] != b[0] {
        (a[0] as u32) < (b[0] as u32)
    } else {
        text_lt(a.drop_first(), b.drop_first())
    }
}

/// No text sorts before itself.
pub proof fn lemma_text_lt_irreflexive(a: Seq<char>)
    ensures
        !text_lt(a, a),
    decreases a.len(),
{
    if a.len() > 0 {
        lemma_text_lt_irreflexive(a.drop_first());
    }
}

/// The order is transitive.
pub proof fn lemma_text_lt_transitive(a: Seq<char>, b: Seq<char>, c: Seq<char>)
    requires
        text_lt(a, b),
        text_lt(b, c),
    ensures
        text_lt(a, c),
    decreases a.len(),
{
    if a.len() > 0 && b.len() > 0 && c.len() > 0 && a[0] == b[0] && b[0] == c[0] {
        lemma_text_lt_transitive(a.drop_first(), b.drop_first(), c.drop_first());
    }
}

/// Of two different texts, one sorts before the other, and not both.
pub proof fn lemma_text_lt_total(a: Seq<char>, b: Seq<char>)
    ensures
        a != b ==> (text_lt(a, b) || text_lt(b, a)),
        !(text_lt(a, b) && text_lt(b, a)),
    decreases a.len(),
{
    if a.len() > 0 && b.len() > 0 && a[0] == b[0] {
        lemma_text_lt_total(a.drop_first(), b.drop_first());
        if a.drop_first() == b.drop_first() {
            assert(a =~= seq![a[0]] + a.drop_first());
            assert(b =~= seq![b[0]] + b.drop_first());
        }
    } else if a.len() == 0 && b.len() == 0 {
        assert(a =~= b);
    } else if a.len() > 0 && b.len() > 0 {
        vstd::utf8::char_u32_cast(a[0], a[0] as u32);
        vstd::utf8::char_u32_cast(b[0], b[0] as u32);
        assert((a[0] as u32) != (b[0] as u32));
    }
}

/// Does `a` sort strictly before `b`?
pub fn text_less(a: &str, b: &str) -> (r: bool)
    ensures
        r == text_lt(a@, b@),
{
    let x = chars_of(a);
    let y = chars_of(b);
    let mut i: usize = 0;
    assert(x@.skip(0) =~= x@);
    assert(y@.skip(0) =~= y@);
    while i < x.len() && i < y.len() && x[i] == y[i]
        invariant
            i <= x@.len(),
            i <= y@.len(),
            text_lt(x@, y@) == text_lt(x@.skip(i as int), y@.skip(i as int)),
        decreases x@.len() - i,
    {
        proof {
            assert(x@.skip(i as int).drop_first() =~= x@.skip(i + 1));
            assert(y@.skip(i as int).drop_first() =~= y@.skip(i + 1));
        }
        i += 1;
    }
    if i == x.len() {
        i < y.len()
    } else if i == y.len() {
        false
    } else {
        let cx = x[i] as u32;
        let cy = y[i] as u32;
        proof {
            assert(x@.skip(i as int)[0] == x@[i as int]);
            assert(y@.skip(i as int)[0] == y@[i as int]);
        }
        cx < cy
    }
}

/// What `{:?}` prints for a string: std's `Debug` for `str`.
pub uninterp spec fn str_debug(s: Seq<char>) -> Seq<char>;

/// The string as `{:?}` prints it: double-quoted, with what std's `Debug` for `str` escapes
/// escaped. Calls `format!` with `{:?}`.
#[verifier::external_body]
pub(crate) fn debug_quoted(s: &str) -> (r: String)
    ensures
        r@ == str_debug(s@),
{
    format!("{:?}", s)
}

} // verus!

verus! {

/// Texts in strictly increasing order, so each occurs once.
pub open spec fn strictly_sorted(s: Seq<Seq<char>>) -> bool {
    forall|i: int, j: int| 0 <= i < j < s.len() ==> text_lt(#[trigger] s[i], #[trigger] s[j])
}

/// How many texts at the front of `s` sort strictly before `x`.
pub open spec fn lt_prefix(s: Seq<Seq<char>>, x: Seq<char>) -> nat
    decreases s.len(),
{
    if s.len() == 0 {
        0
    } else if text_lt(s[0], x) {
        1 + lt_prefix(s.drop_first(), x)
    } else {
        0
    }
}

/// `x` put into `s` just after the texts at its front that sort before it, unless it is already
/// there.
pub open spec fn sorted_insert(s: Seq<Seq<char>>, x: Seq<char>) -> Seq<Seq<char>> {
    let p = lt_prefix(s, x) as int;
    if p < s.len() && s[p] == x {
        s
    } else {
        s.insert(p, x)
    }
}

proof fn lemma_lt_prefix(s: Seq<Seq<char>>, x: Seq<char>)
    ensures
        lt_prefix(s, x) <= s.len(),
        forall|j: int| 0 <= j < lt_prefix(s, x) ==> text_lt(#[trigger] s[j], x),
        lt_prefix(s, x) < s.len() ==> !text_lt(s[lt_prefix(s, x) as int], x),
    decreases s.len(),
{
    if s.len() > 0 && text_lt(s[0], x) {
        lemma_lt_prefix(s.drop_first(), x);
        assert forall|j: int| 0 <= j < lt_prefix(s, x) implies text_lt(#[trigger] s[j], x) by {
            if j > 0 {
                assert(s[j] == s.drop_first()[j - 1]);
            }
        }
    }
}

/// Inserting into a strictly sorted list keeps it strictly sorted, and adds exactly `x`.
pub proof fn lemma_sorted_insert(s: Seq<Seq<char>>, x: Seq<char>)
    requires
        strictly_sorted(s),
    ensures
        strictly_sorted(sorted_insert(s, x)),
        forall|y: Seq<char>| #[trigger] sorted_insert(s, x).contains(y) <==> (s.contains(y) || y == x),
{
    lemma_lt_prefix(s, x);
    let p = lt_prefix(s, x) as int;
    if p < s.len() && s[p] == x {
    } else {
        let r = s.insert(p, x);
        if p < s.len() {
            lemma_text_lt_total(s[p], x);
        }
        assert forall|i: int, j: int| 0 <= i < j < r.len() implies text_lt(#[trigger] r[i], #[trigger] r[j]) by {
            if j < p {
                assert(r[i] == s[i] && r[j] == s[j]);
            } else if j == p {
                assert(r[i] == s[i]);
            } else if i > p {
                assert(r[i] == s[i - 1] && r[j] == s[j - 1]);
            } else if i == p {
                assert(r[j] == s[j - 1]);
                if j - 1 > p {
                    lemma_text_lt_transitive(x, s[p], s[j - 1]);
                }
            } else {
                assert(r[i] == s[i] && r[j] == s[j - 1]);
                if j - 1 > p {
                    lemma_text_lt_transitive(x, s[p], s[j - 1]);
                }
                lemma_text_lt_transitive(s[i], x, s[j - 1]);
            }
        }
        assert forall|y: Seq<char>| #[trigger] r.contains(y) <==> (s.contains(y) || y == x) by {
            if r.contains(y) {
                let w = choose|w: int| 0 <= w < r.len() && r[w] == y;
                if w < p {
                    assert(s[w] == y);
                } else if w > p {
                    assert(s[w - 1] == y);
                }
            }
            if s.contains(y) {
                let w = choose|w: int| 0 <= w < s.len() && s[w] == y;
                if w < p {
                    assert(r[w] == y);
                } else {
                    assert(r[w + 1] == y);
                }
            }
            if y == x {
                assert(r[p] == y);
            }
        }
    }
}

/// Put `x` into `v` as `sorted_insert` says.
pub fn insert_text_sorted(v: &mut Vec<String>, x: &str)
    ensures
        strs(final(v)@) == sorted_insert(strs(old(v)@), x@),
{
    let ghost s = strs(v@);
    let mut p: usize = 0;
    assert(s.skip(0) =~= s);
    while p < v.len() && text_less(v[p].as_str(), x)
        invariant
            s == strs(v@),
            p <= v@.len(),
            lt_prefix(s, x@) == p + lt_prefix(s.skip(p as int), x@),
        decreases v@.len() - p,
    {
        assert(s.skip(p as int).drop_first() =~= s.skip(p + 1));
        p += 1;
    }
    if p < v.len() {
        assert(s.skip(p as int)[0] == s[p as int]);
    }
    if p < v.len() && same_text(v[p].as_str(), x) {
        return;
    }
    v.insert(p, String::from_str(x));
    assert(strs(v@) =~= s.insert(p as int, x@));
}

/// The texts of `parts` with `sep` between each two.
pub open spec fn joined(parts: Seq<Seq<char>>, sep: Seq<char>) -> Seq<char>
    decreases parts.len(),
{
    if parts.len() == 0 {
        Seq::empty()
    } else if parts.len() == 1 {
        parts[0]
    } else {
        joined(parts.drop_last(), sep) + sep + parts.last()
    }
}

/// The strings joined with `sep` between each two.
pub fn join_texts(parts: &[String], sep: &str) -> (r: String)
    ensures
        r@ == joined(strs(parts@), sep@),
{
    let ghost s = strs(parts@);
    let mut r = String::new();
    let mut i: usize = 0;
    assert(s.take(0) =~= Seq::<Seq<char>>::empty());
    while i < parts.len()
        invariant
            s == strs(parts@),
            i <= parts@.len(),
            r@ == joined(s.take(i as int), sep@),
        decreases parts@.len() - i,
    {
        assert(s.take(i + 1).drop_last() =~= s.take(i as int));
        if i > 0 {
            r.append(sep);
        }
        r.append(parts[i].as_str());
        proof {
            if i == 0 {
                assert(r@ =~= s.take(1)[0]);
            } else {
                assert(r@ =~= joined(s.take(i as int), sep@) + sep@ + s.take(i + 1).last());
            }
        }
        i += 1;
    }
    assert(s.take(parts@.len() as int) =~= s);
    r
}

/// A list of distinct texts is no longer than any list holding all of them.
pub proof fn lemma_distinct_within(v: Seq<Seq<char>>, u: Seq<Seq<char>>)
    requires
        v.no_duplicates(),
        forall|x: Seq<char>| v.contains(x) ==> u.contains(x),
    ensures
        v.len() <= u.len(),
{
    v.unique_seq_to_set();
    u.lemma_cardinality_of_set();
    vstd::seq_lib::seq_to_set_is_finite(u);
    assert(v.to_set().subset_of(u.to_set()));
    vstd::set_lib::lemma_len_subset(v.to_set(), u.to_set());
}

} // verus!

verus! {

/// The characters of each text.
pub open spec fn texts(v: Seq<&str>) -> Seq<Seq<char>> {
    v.map_values(|s: &str| s@)
}

/// Owned copies of some texts, in order.
pub(crate) fn owned_texts(v: &[&str]) -> (out: Vec<String>)
    ensures
        strs(out@) == texts(v@),
{
    let mut out: Vec<String> = Vec::new();
    let mut i: usize = 0;
    while i < v.len()
        invariant
            i <= v@.len(),
            strs(out@) == texts(v@).take(i as int),
        decreases v@.len() - i,
    {
        let ghost before = strs(out@);
        out.push(String::from_str(v[i]));
        proof {
            assert(strs(out@) =~= before.push(v@[i as int]@));
            assert(texts(v@).take(i + 1) =~= texts(v@).take(i as int).push(v@[i as int]@));
        }
        i += 1;
    }
    assert(texts(v@).take(v@.len() as int) =~= texts(v@));
    out
}

} // verus!
