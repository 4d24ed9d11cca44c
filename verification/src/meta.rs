//! Metadata: a key→value map every object carries, with the guard every layer calls before a key
//! is written. Keys starting `CV_` belong to the core. Kept in the order keys were first written;
//! read out key-sorted as the canonical form, so the order a project typed its keys in never shows
//! in what it serializes to.

use crate::text::{texts, chars_of, debug_quoted, same_text, str_debug, text_less, text_lt, lemma_text_lt_irreflexive, lemma_text_lt_total, lemma_text_lt_transitive};
use crate::serialize::{dec_str, dec_u32, enc_str, lemma_take_prefix, Codec, Deserialize, Reader, SerError, SerResult, Serialize, Writer};
use vstd::bytes::*;
use vstd::prelude::*;
use vstd::utf8::*;

verus! {

/// The namespace reserved for the core itself.
pub open spec fn reserved_prefix() -> Seq<char> {
    seq!['C', 'V', '_']
}

/// Why a metadata write was refused.
#[derive(Clone, Debug, PartialEq, Eq)]
pub enum MetaError {
    /// The key is in the core's reserved namespace.
    Reserved { key: String },
    /// The key was empty.
    Empty,
}

/// **The guard**, as one function: an empty key is refused, a key that starts with the reserved
/// prefix is refused, and every other key is accepted.
pub fn check_key(key: &str) -> (res: Result<(), MetaError>)
    ensures
        key@.len() == 0 ==> res matches Err(MetaError::Empty),
        key@.len() > 0 && key@.len() >= 3 && key@.take(3) == reserved_prefix() ==> (res matches Err(
            MetaError::Reserved { key: k },
        ) && k@ == key@),
        res is Ok <==> (key@.len() > 0 && !(key@.len() >= 3 && key@.take(3) == reserved_prefix())),
{
    let c = chars_of(key);
    if c.len() == 0 {
        return Err(MetaError::Empty);
    }
    if c.len() >= 3 && c[0] == 'C' && c[1] == 'V' && c[2] == '_' {
        proof {
            assert(key@.take(3) =~= reserved_prefix());
        }
        return Err(MetaError::Reserved { key: String::from_str(key) });
    }
    proof {
        if key@.len() >= 3 && key@.take(3) == reserved_prefix() {
            assert(key@.take(3)[0] == 'C');
            assert(key@.take(3)[1] == 'V');
            assert(key@.take(3)[2] == '_');
        }
    }
    Ok(())
}

impl MetaError {
    /// The message a refused write reports.
    pub fn to_string(&self) -> (s: String)
        ensures
            s@ == match *self {
                MetaError::Reserved { key } => str_debug(key@)
                    + " is in the core's reserved `CV_` namespace"@,
                MetaError::Empty => "a metadata key may not be empty"@,
            },
    {
        match self {
            MetaError::Reserved { key } => {
                let mut s = debug_quoted(key.as_str());
                s.append(" is in the core's reserved `CV_` namespace");
                s
            },
            MetaError::Empty => String::from_str("a metadata key may not be empty"),
        }
    }
}

// ---------------------------------------------------------------------------------------------
// The map
// ---------------------------------------------------------------------------------------------

/// Does the key start with the reserved prefix?
pub open spec fn is_reserved(key: Seq<char>) -> bool {
    key.len() >= 3 && key.take(3) == reserved_prefix()
}

/// May a project write this key?
pub open spec fn key_allowed(key: Seq<char>) -> bool {
    key.len() > 0 && !is_reserved(key)
}

/// Where the first entry with key `k` stands, if any.
pub open spec fn key_index<V>(s: Seq<(Seq<char>, V)>, k: Seq<char>) -> Option<int>
    decreases s.len(),
{
    if s.len() == 0 {
        None
    } else if s[0].0 == k {
        Some(0)
    } else {
        match key_index(s.drop_first(), k) {
            Some(i) => Some(i + 1),
            None => None,
        }
    }
}

/// The value the first entry with key `k` holds.
pub open spec fn value_of<V>(s: Seq<(Seq<char>, V)>, k: Seq<char>) -> Option<V> {
    match key_index(s, k) {
        Some(i) => Some(s[i].1),
        None => None,
    }
}

/// `s` after writing `v` under `k`: the first entry with that key takes the value where it stands,
/// or a new entry goes at the end.
pub open spec fn written<V>(s: Seq<(Seq<char>, V)>, k: Seq<char>, v: V) -> Seq<(Seq<char>, V)> {
    match key_index(s, k) {
        Some(i) => s.update(i, (k, v)),
        None => s.push((k, v)),
    }
}

/// Is an entry keyed other than `k`?
pub open spec fn keyed_otherwise<V>(k: Seq<char>) -> spec_fn((Seq<char>, V)) -> bool {
    |e: (Seq<char>, V)| e.0 != k
}

/// `s` without any entry keyed `k`.
pub open spec fn removed<V>(s: Seq<(Seq<char>, V)>, k: Seq<char>) -> Seq<(Seq<char>, V)> {
    s.filter(keyed_otherwise(k))
}

/// No key occurs twice.
pub open spec fn keys_distinct<V>(s: Seq<(Seq<char>, V)>) -> bool {
    forall|i: int, j: int| 0 <= i < j < s.len() ==> (#[trigger] s[i]).0 != (#[trigger] s[j]).0
}

/// The keys of `s`, in order.
pub open spec fn keys_of<V>(s: Seq<(Seq<char>, V)>) -> Seq<Seq<char>> {
    s.map_values(|e: (Seq<char>, V)| e.0)
}

/// How many keys at the front of `t` are no later than `k`.
pub open spec fn not_after(t: Seq<Seq<char>>, k: Seq<char>) -> nat
    decreases t.len(),
{
    if t.len() == 0 {
        0
    } else if !text_lt(k, t[0]) {
        1 + not_after(t.drop_first(), k)
    } else {
        0
    }
}

/// `e` placed into `t` after every entry whose key is not later than its own.
pub open spec fn placed<V>(t: Seq<(Seq<char>, V)>, e: (Seq<char>, V)) -> Seq<(Seq<char>, V)> {
    t.insert(not_after(keys_of(t), e.0) as int, e)
}

/// The canonical form: the entries sorted by key, entries with equal keys kept in their order.
pub open spec fn canonical_of<V>(s: Seq<(Seq<char>, V)>) -> Seq<(Seq<char>, V)>
    decreases s.len(),
{
    if s.len() == 0 {
        Seq::empty()
    } else {
        placed(canonical_of(s.drop_last()), s.last())
    }
}

/// No entry's key sorts before an earlier one's.
pub open spec fn key_sorted<V>(s: Seq<(Seq<char>, V)>) -> bool {
    forall|i: int, j: int| 0 <= i < j < s.len() ==> !text_lt((#[trigger] s[j]).0, (#[trigger] s[i]).0)
}

/// Owned entries as plain values.
pub open spec fn pairs_view<V>(v: Seq<(String, V)>) -> Seq<(Seq<char>, V)> {
    v.map_values(|e: (String, V)| (e.0@, e.1))
}

/// Borrowed entries as plain values.
pub open spec fn entries_view<V>(v: Seq<(&str, &V)>) -> Seq<(Seq<char>, V)> {
    v.map_values(|e: (&str, &V)| (e.0@, *e.1))
}

proof fn lemma_key_index<V>(s: Seq<(Seq<char>, V)>, k: Seq<char>)
    ensures
        match key_index(s, k) {
            Some(i) => 0 <= i < s.len() && s[i].0 == k && forall|j: int| 0 <= j < i ==> (#[trigger] s[j]).0 != k,
            None => forall|j: int| 0 <= j < s.len() ==> (#[trigger] s[j]).0 != k,
        },
    decreases s.len(),
{
    if s.len() > 0 && s[0].0 != k {
        lemma_key_index(s.drop_first(), k);
        match key_index(s.drop_first(), k) {
            Some(i) => {
                assert forall|j: int| 0 <= j < i + 1 implies (#[trigger] s[j]).0 != k by {
                    if j > 0 {
                        assert(s[j] == s.drop_first()[j - 1]);
                    }
                }
            },
            None => {
                assert forall|j: int| 0 <= j < s.len() implies (#[trigger] s[j]).0 != k by {
                    if j > 0 {
                        assert(s[j] == s.drop_first()[j - 1]);
                    }
                }
            },
        }
    }
}

/// In a list with distinct keys, the entry at `i` is the one its key finds.
proof fn lemma_distinct_index<V>(s: Seq<(Seq<char>, V)>, i: int)
    requires
        keys_distinct(s),
        0 <= i < s.len(),
    ensures
        key_index(s, s[i].0) == Some(i),
        value_of(s, s[i].0) == Some(s[i].1),
{
    lemma_key_index(s, s[i].0);
    match key_index(s, s[i].0) {
        Some(j) => {
            if j < i {
                assert(s[j].0 != s[i].0);
            } else if j > i {
                assert(s[i].0 != s[i].0);
            }
        },
        None => {
            assert(s[i].0 != s[i].0);
        },
    }
}

proof fn lemma_written<V>(s: Seq<(Seq<char>, V)>, k: Seq<char>, v: V)
    ensures
        value_of(written(s, k, v), k) == Some(v),
        forall|x: Seq<char>| x != k ==> #[trigger] value_of(written(s, k, v), x) == value_of(s, x),
        keys_distinct(s) ==> keys_distinct(written(s, k, v)),
{
    let w = written(s, k, v);
    lemma_key_index(s, k);
    lemma_key_index(w, k);
    assert forall|x: Seq<char>| x != k implies #[trigger] value_of(w, x) == value_of(s, x) by {
        lemma_key_index(s, x);
        lemma_key_index(w, x);
        match key_index(s, x) {
            Some(i) => {
                assert(w[i].0 == x);
                match key_index(w, x) {
                    Some(j) => {
                        if j < i {
                            assert(w[j] == s[j]);
                        }
                        assert(j >= i);
                        if j > i {
                            assert(w[i].0 != x);
                        }
                    },
                    None => {},
                }
            },
            None => {
                match key_index(w, x) {
                    Some(j) => {
                        if j < s.len() {
                            assert(w[j] == s[j] || w[j].0 == k);
                        }
                    },
                    None => {},
                }
            },
        }
    }
    match key_index(s, k) {
        Some(i) => {
            match key_index(w, k) {
                Some(j) => {
                    if j < i {
                        assert(w[j] == s[j]);
                    }
                    if j > i {
                        assert(w[i].0 == k);
                    }
                },
                None => {
                    assert(w[i].0 == k);
                },
            }
        },
        None => {
            match key_index(w, k) {
                Some(j) => {
                    if j < s.len() {
                        assert(w[j] == s[j]);
                    }
                },
                None => {
                    assert(w[s.len() as int].0 == k);
                },
            }
        },
    }
    if keys_distinct(s) {
        assert forall|i: int, j: int| 0 <= i < j < w.len() implies (#[trigger] w[i]).0 != (#[trigger] w[j]).0 by {
            if j == s.len() {
                assert(w[i] == s[i]);
            } else {
                assert(s[i].0 != s[j].0);
            }
        }
    }
}

proof fn lemma_removed_front<V>(e: (Seq<char>, V), r: Seq<(Seq<char>, V)>, k: Seq<char>)
    ensures
        removed(seq![e] + r, k) == if e.0 != k {
            seq![e] + removed(r, k)
        } else {
            removed(r, k)
        },
        (value_of(seq![e] + r, k) is Some) == (e.0 == k || value_of(r, k) is Some),
{
    let s = seq![e] + r;
    assert(s.drop_first() =~= r);
    assert(s[0] == e);
    let f = keyed_otherwise::<V>(k);
    r.lemma_filter_prepend(e, f);
    assert(f(e) == (e.0 != k));
    assert(Seq::<(Seq<char>, V)>::empty() + r.filter(f) =~= r.filter(f));
}

/// An object's metadata: keyed values in the order their keys were first written.
#[derive(Clone, Debug, PartialEq)]
pub struct Metadata<V> {
    entries: Vec<(String, V)>,
}

impl<V> View for Metadata<V> {
    type V = Seq<(Seq<char>, V)>;

    closed spec fn view(&self) -> Seq<(Seq<char>, V)> {
        pairs_view(self.entries@)
    }
}

impl<V> Default for Metadata<V> {
    fn default() -> (m: Metadata<V>)
        ensures
            m@ == Seq::<(Seq<char>, V)>::empty(),
    {
        Metadata::new()
    }
}

impl<V> Metadata<V> {
    /// Empty.
    pub fn new() -> (m: Metadata<V>)
        ensures
            m@ == Seq::<(Seq<char>, V)>::empty(),
    {
        let m = Metadata { entries: Vec::new() };
        assert(m@ =~= Seq::<(Seq<char>, V)>::empty());
        m
    }

    /// Where the first entry keyed `key` stands.
    fn index_of(&self, key: &str) -> (r: Option<usize>)
        ensures
            r matches Some(i) ==> key_index(self@, key@) == Some(i as int),
            r is None ==> key_index(self@, key@) is None,
    {
        let ghost s = self@;
        let mut i: usize = 0;
        assert(s.skip(0) =~= s);
        while i < self.entries.len()
            invariant
                i <= s.len(),
                s == self@,
                s.len() == self.entries@.len(),
                key_index(s, key@) == match key_index(s.skip(i as int), key@) {
                    Some(j) => Some(j + i),
                    None => None::<int>,
                },
            decreases s.len() - i,
        {
            assert(s.skip(i as int)[0] == s[i as int]);
            assert(s[i as int].0 == self.entries@[i as int].0@);
            if same_text(self.entries[i].0.as_str(), key) {
                return Some(i);
            }
            assert(s.skip(i as int).drop_first() =~= s.skip(i + 1));
            i += 1;
        }
        assert(s.skip(i as int).len() == 0);
        None
    }

    /// Write a key. The reserved namespace and the empty key are refused, and a refused write
    /// changes nothing.
    pub fn set(&mut self, key: &str, value: V) -> (res: Result<(), MetaError>)
        ensures
            res is Ok <==> key_allowed(key@),
            key@.len() == 0 ==> res matches Err(MetaError::Empty),
            key@.len() > 0 && is_reserved(key@) ==> (res matches Err(MetaError::Reserved { key: k }) && k@ == key@),
            res is Ok ==> final(self)@ == written(old(self)@, key@, value),
            res is Err ==> final(self)@ == old(self)@,
    {
        match check_key(key) {
            Ok(()) => {},
            Err(e) => {
                return Err(e);
            },
        }
        self.write_unchecked(key, value);
        Ok(())
    }

    /// Write a key without the guard; a key already present keeps its place.
    fn write_unchecked(&mut self, key: &str, value: V)
        ensures
            final(self)@ == written(old(self)@, key@, value),
    {
        let ghost s = self@;
        proof {
            lemma_key_index(s, key@);
            assert(s.len() == self.entries@.len());
        }
        match self.index_of(key) {
            Some(i) => {
                let mut e = self.entries.remove(i);
                e.1 = value;
                self.entries.insert(i, e);
                assert(self@ =~= s.update(i as int, (key@, value)));
            },
            None => {
                self.entries.push((String::from_str(key), value));
                assert(self@ =~= s.push((key@, value)));
            },
        }
    }

    /// Read a key.
    pub fn get(&self, key: &str) -> (r: Option<&V>)
        ensures
            match value_of(self@, key@) {
                Some(v) => r matches Some(x) && *x == v,
                None => r is None,
            },
    {
        proof {
            lemma_key_index(self@, key@);
            assert(self@.len() == self.entries@.len());
        }
        match self.index_of(key) {
            Some(i) => {
                assert(key_index(self@, key@) == Some(i as int));
                assert(self@[i as int].1 == self.entries@[i as int].1);
                let x = &self.entries[i].1;
                assert(*x == self@[i as int].1);
                Some(x)
            },
            None => None,
        }
    }

    /// Is the key present?
    pub fn has(&self, key: &str) -> (b: bool)
        ensures
            b == (value_of(self@, key@) is Some),
    {
        self.index_of(key).is_some()
    }

    /// Remove a key: whether it was there.
    pub fn remove(&mut self, key: &str) -> (was: bool)
        ensures
            was == (value_of(old(self)@, key@) is Some),
            final(self)@ == removed(old(self)@, key@),
    {
        let ghost s = self@;
        let mut rest: Vec<(String, V)> = Vec::new();
        std::mem::swap(&mut rest, &mut self.entries);
        let mut kept: Vec<(String, V)> = Vec::new();
        let mut found = false;
        assert(pairs_view(kept@) + removed(pairs_view(rest@), key@) =~= removed(s, key@));
        while rest.len() > 0
            invariant
                removed(s, key@) == pairs_view(kept@) + removed(pairs_view(rest@), key@),
                (value_of(s, key@) is Some) == (found || value_of(pairs_view(rest@), key@) is Some),
            decreases rest@.len(),
        {
            let ghost before = pairs_view(rest@);
            let e = rest.remove(0);
            proof {
                assert(before =~= seq![(e.0@, e.1)] + pairs_view(rest@));
                lemma_removed_front((e.0@, e.1), pairs_view(rest@), key@);
            }
            if same_text(e.0.as_str(), key) {
                found = true;
            } else {
                let ghost k0 = pairs_view(kept@);
                kept.push(e);
                proof {
                    assert(pairs_view(kept@) =~= k0.push((e.0@, e.1)));
                    assert(pairs_view(kept@) + removed(pairs_view(rest@), key@) =~= k0 + (seq![(e.0@, e.1)] + removed(pairs_view(rest@), key@)));
                }
            }
        }
        proof {
            assert(pairs_view(rest@) =~= Seq::<(Seq<char>, V)>::empty());
            assert(removed(pairs_view(rest@), key@) =~= Seq::<(Seq<char>, V)>::empty());
            assert(pairs_view(kept@) + Seq::<(Seq<char>, V)>::empty() =~= pairs_view(kept@));
        }
        self.entries = kept;
        found
    }

    /// Every key, in the order it was first written.
    pub fn keys(&self) -> (v: Vec<&str>)
        ensures
            texts(v@) == keys_of(self@),
    {
        let mut v: Vec<&str> = Vec::new();
        let mut i: usize = 0;
        assert(self@.len() == self.entries@.len());
        while i < self.entries.len()
            invariant
                i <= self.entries@.len(),
                v@.len() == i,
                self@.len() == self.entries@.len(),
                texts(v@) == keys_of(self@).take(i as int),
            decreases self.entries@.len() - i,
        {
            let ghost v0 = v@;
            v.push(self.entries[i].0.as_str());
            proof {
                assert(self@.len() == self.entries@.len());
                assert(keys_of(self@)[i as int] == self.entries@[i as int].0@);
                assert forall|j: int| 0 <= j < i + 1 implies #[trigger] texts(v@)[j] == keys_of(self@).take(i + 1)[j] by {
                    if j < i {
                        assert(v@[j] == v0[j]);
                        assert(texts(v0)[j] == keys_of(self@).take(i as int)[j]);
                    }
                }
            }
            assert(texts(v@) =~= keys_of(self@).take(i + 1));
            i += 1;
        }
        assert(keys_of(self@).take(i as int) =~= keys_of(self@));
        v
    }

    /// Every entry, in the order its key was first written.
    pub fn iter(&self) -> (v: Vec<(&str, &V)>)
        ensures
            entries_view(v@) == self@,
    {
        let mut v: Vec<(&str, &V)> = Vec::new();
        let mut i: usize = 0;
        assert(self@.len() == self.entries@.len());
        while i < self.entries.len()
            invariant
                i <= self.entries@.len(),
                v@.len() == i,
                self@.len() == self.entries@.len(),
                entries_view(v@) == self@.take(i as int),
            decreases self.entries@.len() - i,
        {
            let e = &self.entries[i];
            let ghost v0 = v@;
            v.push((e.0.as_str(), &e.1));
            proof {
                assert(self@.len() == self.entries@.len());
                assert(self@[i as int] == (self.entries@[i as int].0@, self.entries@[i as int].1));
                assert forall|j: int| 0 <= j < i + 1 implies #[trigger] entries_view(v@)[j] == self@.take(i + 1)[j] by {
                    if j < i {
                        assert(v@[j] == v0[j]);
                        assert(entries_view(v0)[j] == self@.take(i as int)[j]);
                    }
                }
            }
            assert(entries_view(v@) =~= self@.take(i + 1));
            i += 1;
        }
        assert(self@.take(i as int) =~= self@);
        v
    }

    /// How many keys.
    pub fn len(&self) -> (n: usize)
        ensures
            n == self@.len(),
    {
        self.entries.len()
    }

    /// Is it empty?
    pub fn is_empty(&self) -> (b: bool)
        ensures
            b == (self@.len() == 0),
    {
        self.entries.len() == 0
    }

    /// Every entry, key-sorted: the canonical form serialization sees.
    pub fn canonical(&self) -> (v: Vec<(&str, &V)>)
        ensures
            entries_view(v@) == canonical_of(self@),
    {
        let mut out: Vec<(&str, &V)> = Vec::new();
        let mut i: usize = 0;
        assert(entries_view(out@) =~= canonical_of(self@.take(0)));
        while i < self.entries.len()
            invariant
                i <= self.entries@.len(),
                entries_view(out@) == canonical_of(self@.take(i as int)),
            decreases self.entries@.len() - i,
        {
            let e = &self.entries[i];
            let ghost t = entries_view(out@);
            let mut p: usize = 0;
            assert(keys_of(t).skip(0) =~= keys_of(t));
            while p < out.len() && !text_less(e.0.as_str(), out[p].0)
                invariant
                    p <= out@.len(),
                    t == entries_view(out@),
                    not_after(keys_of(t), e.0@) == p + not_after(keys_of(t).skip(p as int), e.0@),
                decreases out@.len() - p,
            {
                assert(keys_of(t).skip(p as int)[0] == out@[p as int].0@);
                assert(keys_of(t).skip(p as int).drop_first() =~= keys_of(t).skip(p + 1));
                p += 1;
            }
            if p < out.len() {
                assert(keys_of(t).skip(p as int)[0] == out@[p as int].0@);
            }
            out.insert(p, (e.0.as_str(), &e.1));
            proof {
                let s = self@.take(i + 1);
                assert(s.drop_last() =~= self@.take(i as int));
                assert(s.last() == (self.entries@[i as int].0@, self.entries@[i as int].1));
                assert(entries_view(out@) =~= t.insert(p as int, (e.0@, e.1)));
            }
            i += 1;
        }
        assert(self@.take(i as int) =~= self@);
        out
    }
}

// ---------------------------------------------------------------------------------------------
// Laws
// ---------------------------------------------------------------------------------------------

proof fn lemma_not_after(t: Seq<Seq<char>>, k: Seq<char>)
    ensures
        not_after(t, k) <= t.len(),
        forall|j: int| 0 <= j < not_after(t, k) ==> !text_lt(k, #[trigger] t[j]),
        not_after(t, k) < t.len() ==> text_lt(k, t[not_after(t, k) as int]),
    decreases t.len(),
{
    if t.len() > 0 && !text_lt(k, t[0]) {
        lemma_not_after(t.drop_first(), k);
        assert forall|j: int| 0 <= j < not_after(t, k) implies !text_lt(k, #[trigger] t[j]) by {
            if j > 0 {
                assert(t[j] == t.drop_first()[j - 1]);
            }
        }
        if not_after(t, k) < t.len() {
            assert(t[not_after(t, k) as int] == t.drop_first()[not_after(t.drop_first(), k) as int]);
        }
    }
}

proof fn lemma_placed<V>(t: Seq<(Seq<char>, V)>, e: (Seq<char>, V))
    requires
        key_sorted(t),
    ensures
        key_sorted(placed(t, e)),
        placed(t, e).len() == t.len() + 1,
        forall|x: (Seq<char>, V)| #[trigger] placed(t, e).contains(x) <==> (t.contains(x) || x == e),
        keys_distinct(t) && (forall|j: int| 0 <= j < t.len() ==> (#[trigger] t[j]).0 != e.0) ==> keys_distinct(placed(t, e)),
{
    let ks = keys_of(t);
    lemma_not_after(ks, e.0);
    let p = not_after(ks, e.0) as int;
    let r = placed(t, e);
    assert(r == t.insert(p, e));
    assert forall|i: int, j: int| 0 <= i < j < r.len() implies !text_lt((#[trigger] r[j]).0, (#[trigger] r[i]).0) by {
        if j < p {
            assert(r[i] == t[i] && r[j] == t[j]);
        } else if j == p {
            assert(r[i] == t[i]);
            assert(ks[i] == t[i].0);
        } else if i > p {
            assert(r[i] == t[i - 1] && r[j] == t[j - 1]);
        } else if i == p {
            assert(r[j] == t[j - 1]);
            assert(ks[p] == t[p].0);
            if text_lt(t[j - 1].0, e.0) {
                if j - 1 > p {
                    lemma_text_lt_transitive(t[j - 1].0, e.0, t[p].0);
                } else {
                    lemma_text_lt_total(e.0, t[p].0);
                }
            }
        } else {
            assert(r[i] == t[i] && r[j] == t[j - 1]);
        }
    }
    assert forall|x: (Seq<char>, V)| #[trigger] r.contains(x) <==> (t.contains(x) || x == e) by {
        if r.contains(x) {
            let w = choose|w: int| 0 <= w < r.len() && r[w] == x;
            if w < p {
                assert(t[w] == x);
            } else if w > p {
                assert(t[w - 1] == x);
            }
        }
        if t.contains(x) {
            let w = choose|w: int| 0 <= w < t.len() && t[w] == x;
            if w < p {
                assert(r[w] == x);
            } else {
                assert(r[w + 1] == x);
            }
        }
        if x == e {
            assert(r[p] == x);
        }
    }
    if keys_distinct(t) && (forall|j: int| 0 <= j < t.len() ==> (#[trigger] t[j]).0 != e.0) {
        assert forall|i: int, j: int| 0 <= i < j < r.len() implies (#[trigger] r[i]).0 != (#[trigger] r[j]).0 by {
            if j < p {
                assert(r[i] == t[i] && r[j] == t[j]);
            } else if j == p {
                assert(r[i] == t[i]);
            } else if i > p {
                assert(r[i] == t[i - 1] && r[j] == t[j - 1]);
            } else if i == p {
                assert(r[j] == t[j - 1]);
            } else {
                assert(r[i] == t[i] && r[j] == t[j - 1]);
            }
        }
    }
}

/// The canonical form is key-sorted and holds exactly the entries, each as often: entries with
/// equal keys keep their order.
pub proof fn law_canonical_sorts_by_key<V>(s: Seq<(Seq<char>, V)>)
    ensures
        key_sorted(canonical_of(s)),
        canonical_of(s).len() == s.len(),
        forall|x: (Seq<char>, V)| #![trigger canonical_of(s).contains(x)] #![trigger s.contains(x)] canonical_of(s).contains(x) <==> s.contains(x),
        keys_distinct(s) ==> keys_distinct(canonical_of(s)),
    decreases s.len(),
{
    if s.len() > 0 {
        let d = s.drop_last();
        law_canonical_sorts_by_key(d);
        lemma_placed(canonical_of(d), s.last());
        assert forall|x: (Seq<char>, V)| #![trigger canonical_of(s).contains(x)] #![trigger s.contains(x)] canonical_of(s).contains(x) <==> s.contains(x) by {
            if s.contains(x) {
                let w = choose|w: int| 0 <= w < s.len() && s[w] == x;
                if w < d.len() {
                    assert(d[w] == x);
                }
            }
            if d.contains(x) {
                let w = choose|w: int| 0 <= w < d.len() && d[w] == x;
                assert(s[w] == x);
            }
        }
        if keys_distinct(s) {
            let c = canonical_of(d);
            assert(keys_distinct(d)) by {
                assert forall|i: int, j: int| 0 <= i < j < d.len() implies (#[trigger] d[i]).0 != (#[trigger] d[j]).0 by {
                    assert(d[i] == s[i] && d[j] == s[j]);
                }
            }
            assert forall|j: int| 0 <= j < c.len() implies (#[trigger] c[j]).0 != s.last().0 by {
                assert(c.contains(c[j]));
                assert(d.contains(c[j]));
                let w = choose|w: int| 0 <= w < d.len() && d[w] == c[j];
                assert(s[w] == c[j]);
                assert(s[s.len() - 1] == s.last());
            }
        }
    }
}

/// A key-sorted list with distinct keys is strictly increasing by key.
proof fn lemma_strictly_by_key<V>(s: Seq<(Seq<char>, V)>, i: int, j: int)
    requires
        key_sorted(s),
        keys_distinct(s),
        0 <= i < j < s.len(),
    ensures
        text_lt(s[i].0, s[j].0),
{
    lemma_text_lt_total(s[i].0, s[j].0);
}

/// Two key-sorted lists with distinct keys and the same entries are the same list.
proof fn lemma_sorted_entries_unique<V>(a: Seq<(Seq<char>, V)>, b: Seq<(Seq<char>, V)>)
    requires
        key_sorted(a),
        key_sorted(b),
        keys_distinct(a),
        keys_distinct(b),
        forall|x: (Seq<char>, V)| #![trigger a.contains(x)] #![trigger b.contains(x)] a.contains(x) <==> b.contains(x),
    ensures
        a == b,
    decreases a.len(),
{
    if a.len() == 0 {
        if b.len() > 0 {
            assert(b.contains(b[0]));
        }
        assert(a =~= b);
    } else if b.len() == 0 {
        assert(a.contains(a[0]));
    } else {
        assert(a.contains(a[0]));
        assert(b.contains(b[0]));
        let i = choose|i: int| 0 <= i < a.len() && a[i] == b[0];
        let j = choose|j: int| 0 <= j < b.len() && b[j] == a[0];
        if i > 0 && j > 0 {
            lemma_strictly_by_key(a, 0, i);
            lemma_strictly_by_key(b, 0, j);
            lemma_text_lt_total(a[0].0, b[0].0);
        } else if i > 0 {
            assert(a[0] == b[0]);
        }
        assert(a[0] == b[0]);
        let ra = a.drop_first();
        let rb = b.drop_first();
        assert forall|x: (Seq<char>, V)| #![trigger ra.contains(x)] #![trigger rb.contains(x)] ra.contains(x) <==> rb.contains(x) by {
            if ra.contains(x) {
                let w = choose|w: int| 0 <= w < ra.len() && ra[w] == x;
                assert(a[w + 1] == x);
                assert(a[0].0 != a[w + 1].0);
                assert(b.contains(x));
                let v = choose|v: int| 0 <= v < b.len() && b[v] == x;
                assert(v != 0);
                assert(rb[v - 1] == x);
            }
            if rb.contains(x) {
                let w = choose|w: int| 0 <= w < rb.len() && rb[w] == x;
                assert(b[w + 1] == x);
                assert(b[0].0 != b[w + 1].0);
                assert(a.contains(x));
                let v = choose|v: int| 0 <= v < a.len() && a[v] == x;
                assert(v != 0);
                assert(ra[v - 1] == x);
            }
        }
        assert(key_sorted(ra)) by {
            assert forall|p: int, q: int| 0 <= p < q < ra.len() implies !text_lt((#[trigger] ra[q]).0, (#[trigger] ra[p]).0) by {
                assert(ra[p] == a[p + 1] && ra[q] == a[q + 1]);
            }
        }
        assert(key_sorted(rb)) by {
            assert forall|p: int, q: int| 0 <= p < q < rb.len() implies !text_lt((#[trigger] rb[q]).0, (#[trigger] rb[p]).0) by {
                assert(rb[p] == b[p + 1] && rb[q] == b[q + 1]);
            }
        }
        assert(keys_distinct(ra)) by {
            assert forall|p: int, q: int| 0 <= p < q < ra.len() implies (#[trigger] ra[p]).0 != (#[trigger] ra[q]).0 by {
                assert(ra[p] == a[p + 1] && ra[q] == a[q + 1]);
            }
        }
        assert(keys_distinct(rb)) by {
            assert forall|p: int, q: int| 0 <= p < q < rb.len() implies (#[trigger] rb[p]).0 != (#[trigger] rb[q]).0 by {
                assert(rb[p] == b[p + 1] && rb[q] == b[q + 1]);
            }
        }
        lemma_sorted_entries_unique(ra, rb);
        assert(a =~= seq![a[0]] + ra);
        assert(b =~= seq![b[0]] + rb);
    }
}

/// **The order keys were typed in never shows in the canonical form**: two metadata maps with the
/// same value under every key, each key once, have the same canonical form.
pub proof fn law_typing_order_does_not_show<V>(a: Seq<(Seq<char>, V)>, b: Seq<(Seq<char>, V)>)
    requires
        keys_distinct(a),
        keys_distinct(b),
        forall|k: Seq<char>| #[trigger] value_of(a, k) == value_of(b, k),
    ensures
        canonical_of(a) == canonical_of(b),
{
    law_canonical_sorts_by_key(a);
    law_canonical_sorts_by_key(b);
    assert forall|x: (Seq<char>, V)| #![trigger a.contains(x)] #![trigger b.contains(x)] a.contains(x) <==> b.contains(x) by {
        if a.contains(x) {
            let i = choose|i: int| 0 <= i < a.len() && a[i] == x;
            lemma_distinct_index(a, i);
            assert(value_of(b, x.0) == Some(x.1));
            lemma_key_index(b, x.0);
            let j = key_index(b, x.0)->0;
            assert(b[j] == x);
        }
        if b.contains(x) {
            let i = choose|i: int| 0 <= i < b.len() && b[i] == x;
            lemma_distinct_index(b, i);
            assert(value_of(a, x.0) == Some(x.1));
            lemma_key_index(a, x.0);
            let j = key_index(a, x.0)->0;
            assert(a[j] == x);
        }
    }
    lemma_sorted_entries_unique(canonical_of(a), canonical_of(b));
}

/// A write reads back, and leaves every other key as it was; a map whose keys were each once
/// still has each once.
pub proof fn law_a_write_reads_back<V>(s: Seq<(Seq<char>, V)>, k: Seq<char>, v: V, other: Seq<char>)
    ensures
        value_of(written(s, k, v), k) == Some(v),
        other != k ==> value_of(written(s, k, v), other) == value_of(s, other),
        keys_distinct(s) ==> keys_distinct(written(s, k, v)),
{
    lemma_written(s, k, v);
}

/// Rewriting a key keeps its place: the keys stay in the order they were first written.
pub proof fn law_rewriting_keeps_the_key_order<V>(s: Seq<(Seq<char>, V)>, k: Seq<char>, v: V)
    requires
        value_of(s, k) is Some,
    ensures
        keys_of(written(s, k, v)) == keys_of(s),
{
    lemma_key_index(s, k);
    assert(keys_of(written(s, k, v)) =~= keys_of(s));
}

proof fn lemma_value_of_front<V>(e: (Seq<char>, V), r: Seq<(Seq<char>, V)>, k: Seq<char>)
    ensures
        value_of(seq![e] + r, k) == if e.0 == k {
            Some(e.1)
        } else {
            value_of(r, k)
        },
{
    let s = seq![e] + r;
    assert(s.drop_first() =~= r);
    assert(s[0] == e);
    if e.0 != k {
        lemma_key_index(r, k);
        match key_index(r, k) {
            Some(i) => {
                assert(s[i + 1] == r[i]);
            },
            None => {},
        }
    }
}

/// A removed key reads back as absent, and every other key as it was.
pub proof fn law_a_removed_key_is_gone<V>(s: Seq<(Seq<char>, V)>, k: Seq<char>, other: Seq<char>)
    ensures
        value_of(removed(s, k), k) is None,
        other != k ==> value_of(removed(s, k), other) == value_of(s, other),
    decreases s.len(),
{
    if s.len() == 0 {
        assert(removed(s, k) =~= Seq::<(Seq<char>, V)>::empty());
    } else {
        let r = s.drop_first();
        law_a_removed_key_is_gone(r, k, other);
        assert(s =~= seq![s[0]] + r);
        lemma_removed_front(s[0], r, k);
        lemma_value_of_front(s[0], r, other);
        lemma_value_of_front(s[0], r, k);
        if s[0].0 != k {
            lemma_value_of_front(s[0], removed(r, k), other);
            lemma_value_of_front(s[0], removed(r, k), k);
        }
    }
}

// ---------------------------------------------------------------------------------------------
// Wire form
// ---------------------------------------------------------------------------------------------

/// Entries with their values taken deeply.
pub open spec fn deep_entries<V: DeepView>(s: Seq<(Seq<char>, V)>) -> Seq<(Seq<char>, <V as DeepView>::V)> {
    s.map_values(|e: (Seq<char>, V)| (e.0, e.1.deep_view()))
}

impl<V: DeepView> DeepView for Metadata<V> {
    type V = Seq<(Seq<char>, <V as DeepView>::V)>;

    open spec fn deep_view(&self) -> Seq<(Seq<char>, <V as DeepView>::V)> {
        deep_entries(self@)
    }
}

/// Sorting by key does not look at the values, so it commutes with taking them deeply.
proof fn lemma_deep_canonical<V: DeepView>(s: Seq<(Seq<char>, V)>)
    ensures
        canonical_of(deep_entries(s)) == deep_entries(canonical_of(s)),
    decreases s.len(),
{
    if s.len() > 0 {
        lemma_deep_canonical(s.drop_last());
        assert(deep_entries(s).drop_last() =~= deep_entries(s.drop_last()));
        let t = canonical_of(s.drop_last());
        let e = s.last();
        assert(keys_of(deep_entries(t)) =~= keys_of(t));
        lemma_not_after(keys_of(t), e.0);
        let p = not_after(keys_of(t), e.0) as int;
        assert(deep_entries(t.insert(p, e)) =~= deep_entries(t).insert(p, (e.0, e.1.deep_view())));
    }
}

/// The encodings of `s`'s entries one after another: each key as a string, then its value.
pub open spec fn enc_entries<V: Serialize>(s: Seq<(Seq<char>, <V as DeepView>::V)>) -> Seq<u8>
    decreases s.len(),
{
    if s.len() == 0 {
        Seq::empty()
    } else {
        enc_str(s[0].0) + V::encoding(s[0].1) + enc_entries::<V>(s.drop_first())
    }
}

/// Reading `count` entries one after another from the head of `rest`.
pub open spec fn dec_entries<V: Deserialize>(rest: Seq<u8>, count: nat) -> Result<
    (Seq<(Seq<char>, <V as DeepView>::V)>, nat),
    SerError,
>
    decreases count,
{
    if count == 0 {
        Ok((Seq::empty(), 0))
    } else {
        match dec_str(rest) {
            Err(e) => Err(e),
            Ok((k, a)) => match V::decoding(rest.skip(a as int)) {
                Err(e) => Err(e),
                Ok((v, b)) => match dec_entries::<V>(rest.skip((a + b) as int), (count - 1) as nat) {
                    Err(e) => Err(e),
                    Ok((es, m)) => Ok((seq![(k, v)] + es, a + b + m)),
                },
            },
        }
    }
}

proof fn lemma_enc_entries_push<V: Serialize>(s: Seq<(Seq<char>, <V as DeepView>::V)>, x: (Seq<char>, <V as DeepView>::V))
    ensures
        enc_entries::<V>(s.push(x)) == enc_entries::<V>(s) + enc_str(x.0) + V::encoding(x.1),
    decreases s.len(),
{
    if s.len() == 0 {
        assert(s.push(x).drop_first() =~= s);
        assert(enc_entries::<V>(s.push(x)) =~= enc_str(x.0) + V::encoding(x.1));
    } else {
        assert(s.push(x).drop_first() =~= s.drop_first().push(x));
        lemma_enc_entries_push::<V>(s.drop_first(), x);
        assert(enc_entries::<V>(s.push(x)) =~= enc_entries::<V>(s) + enc_str(x.0) + V::encoding(x.1));
    }
}

/// Can an entry be written? Its key's bytes must fit the length prefix, and its value must.
pub open spec fn entry_encodable<V: Serialize>(e: (Seq<char>, <V as DeepView>::V)) -> bool {
    encode_utf8(e.0).len() <= u32::MAX && V::encodable(e.1)
}

impl<V: Serialize> Serialize for Metadata<V> {
    open spec fn encodable(v: Seq<(Seq<char>, <V as DeepView>::V)>) -> bool {
        &&& v.len() <= u32::MAX
        &&& forall|i: int| 0 <= i < v.len() ==> #[trigger] entry_encodable::<V>(v[i])
    }

    /// The count, then the entries key-sorted: two maps holding the same entries write the same
    /// bytes, whatever order their keys were written in.
    open spec fn encoding(v: Seq<(Seq<char>, <V as DeepView>::V)>) -> Seq<u8> {
        spec_u32_to_le_bytes(v.len() as u32) + enc_entries::<V>(canonical_of(v))
    }

    fn serialize(&self, w: &mut Writer) {
        let ghost d = self.deep_view();
        let c = self.canonical();
        let ghost cd = canonical_of(d);
        proof {
            lemma_deep_canonical(self@);
            law_canonical_sorts_by_key(d);
            law_canonical_sorts_by_key(self@);
            assert(cd == deep_entries(entries_view(c@)));
            assert(c@.len() == d.len());
        }
        w.u32(c.len() as u32);
        let mut i: usize = 0;
        while i < c.len()
            invariant
                i <= c@.len(),
                c@.len() == cd.len(),
                cd == deep_entries(entries_view(c@)),
                cd == canonical_of(d),
                forall|x: (Seq<char>, <V as DeepView>::V)| #[trigger] cd.contains(x) ==> d.contains(x),
                Self::encodable(d),
                w@ == old(w)@ + spec_u32_to_le_bytes(d.len() as u32) + enc_entries::<V>(cd.take(i as int)),
            decreases c@.len() - i,
        {
            let (k, v) = c[i];
            proof {
                assert(cd[i as int] == (k@, v.deep_view()));
                assert(cd.contains(cd[i as int]));
                let j = choose|j: int| 0 <= j < d.len() && d[j] == cd[i as int];
                assert(entry_encodable::<V>(d[j]));
            }
            w.str(k);
            w.write(v);
            proof {
                assert(cd.take(i + 1) =~= cd.take(i as int).push(cd[i as int]));
                lemma_enc_entries_push::<V>(cd.take(i as int), cd[i as int]);
            }
            i += 1;
        }
        assert(cd.take(i as int) =~= cd);
    }
}

impl<V: Deserialize> Deserialize for Metadata<V> {
    /// A count, then that many entries, kept in the order they come.
    open spec fn decoding(rest: Seq<u8>) -> Result<(Seq<(Seq<char>, <V as DeepView>::V)>, nat), SerError> {
        match dec_u32(rest) {
            Err(e) => Err(e),
            Ok((n, _)) => match dec_entries::<V>(rest.skip(4), n as nat) {
                Ok((es, m)) => Ok((es, 4 + m)),
                Err(e) => Err(e),
            },
        }
    }

    fn deserialize(r: &mut Reader<'_>) -> (res: SerResult<Metadata<V>>) {
        proof {
            use_type_invariant(&*r);
        }
        let n = r.u32()?;
        proof {
            use_type_invariant(&*r);
        }
        let ghost rest0 = r.rest();
        let ghost at0 = r.at();
        assert(rest0 =~= old(r).rest().skip(4));
        let mut out: Vec<(String, V)> = Vec::new();
        let ghost mut used: nat = 0;
        let mut i: u32 = 0;
        while i < n
            invariant
                i <= n,
                r.data() == old(r).data(),
                r.at() == at0 + used,
                at0 == old(r).at() + 4,
                r.at() <= r.data().len(),
                rest0 == r.data().subrange(at0 as int, r.data().len() as int),
                rest0 == old(r).rest().skip(4),
                dec_u32(old(r).rest()) == Ok::<(u32, nat), SerError>((n, 4)),
                r.rest() == rest0.skip(used as int),
                out@.len() == i,
                dec_entries::<V>(rest0, n as nat) == match dec_entries::<V>(r.rest(), (n - i) as nat) {
                    Ok((es, m)) => Ok((deep_entries(pairs_view(out@)) + es, used + m)),
                    Err(e) => Err(e),
                },
            decreases n - i,
        {
            let ghost before = r.rest();
            let ghost prefix = deep_entries(pairs_view(out@));
            let k = match r.str() {
                Ok(k) => k,
                Err(e) => {
                    return Err(e);
                },
            };
            proof {
                use_type_invariant(&*r);
            }
            let ghost mid = r.rest();
            let ghost a = (r.at() - at0 - used) as nat;
            proof {
                assert(mid =~= before.skip(a as int));
            }
            let v = match V::deserialize(r) {
                Ok(v) => v,
                Err(e) => {
                    return Err(e);
                },
            };
            proof {
                use_type_invariant(&*r);
                let b = (r.at() - at0 - used - a) as nat;
                assert(r.rest() =~= mid.skip(b as int));
                assert(r.rest() =~= before.skip((a + b) as int));
                assert(r.rest() =~= rest0.skip((used + a + b) as int));
                match dec_entries::<V>(r.rest(), (n - i - 1) as nat) {
                    Ok((es, m)) => {
                        assert(prefix + (seq![(k@, v.deep_view())] + es) =~= prefix.push((k@, v.deep_view())) + es);
                    },
                    Err(e) => {},
                }
                used = used + a + b;
            }
            let ghost o0 = out@;
            out.push((k, v));
            proof {
                assert(deep_entries(pairs_view(out@)) =~= prefix.push((k@, v.deep_view()))) by {
                    assert(out@ == o0.push((k, v)));
                }
            }
            i += 1;
        }
        let m = Metadata { entries: out };
        assert(m.deep_view() + Seq::<(Seq<char>, <V as DeepView>::V)>::empty() =~= m.deep_view());
        Ok(m)
    }
}

proof fn lemma_dec_entries_round_trip<V: Codec>(s: Seq<(Seq<char>, <V as DeepView>::V)>, rest: Seq<u8>)
    requires
        forall|i: int| 0 <= i < s.len() ==> #[trigger] entry_encodable::<V>(s[i]),
    ensures
        dec_entries::<V>(enc_entries::<V>(s) + rest, s.len()) == Ok::<(Seq<(Seq<char>, <V as DeepView>::V)>, nat), SerError>(
            (s, enc_entries::<V>(s).len()),
        ),
    decreases s.len(),
{
    if s.len() > 0 {
        let ks = enc_str(s[0].0);
        let vs = V::encoding(s[0].1);
        let tail = enc_entries::<V>(s.drop_first()) + rest;
        assert(entry_encodable::<V>(s[0]));
        assert(enc_entries::<V>(s) + rest =~= ks + (vs + tail));
        <String as Codec>::lemma_round_trip(s[0].0, vs + tail);
        lemma_take_prefix(ks, vs + tail);
        V::lemma_round_trip(s[0].1, tail);
        lemma_take_prefix(vs, tail);
        assert((ks + (vs + tail)).skip((ks.len() + vs.len()) as int) =~= tail);
        assert forall|i: int| 0 <= i < s.drop_first().len() implies #[trigger] entry_encodable::<V>(s.drop_first()[i]) by {
            assert(s.drop_first()[i] == s[i + 1]);
        }
        lemma_dec_entries_round_trip::<V>(s.drop_first(), rest);
        let all = enc_entries::<V>(s) + rest;
        assert(dec_str(all) == Ok::<(Seq<char>, nat), SerError>((s[0].0, ks.len())));
        assert(all.skip(ks.len() as int) == vs + tail);
        assert(V::decoding(all.skip(ks.len() as int)) == Ok::<(<V as DeepView>::V, nat), SerError>((s[0].1, vs.len())));
        assert(all.skip((ks.len() + vs.len()) as int) == tail);
        assert((s[0].0, s[0].1) == s[0]);
        assert(seq![s[0]] + s.drop_first() =~= s);
        assert(enc_entries::<V>(s).len() == ks.len() + vs.len() + enc_entries::<V>(s.drop_first()).len());
        assert(dec_entries::<V>(all, s.len()) == match dec_entries::<V>(all.skip((ks.len() + vs.len()) as int), (s.len() - 1) as nat) {
            Err(e) => Err(e),
            Ok((es, m)) => Ok((seq![(s[0].0, s[0].1)] + es, ks.len() + vs.len() + m)),
        });
    } else {
        assert(s =~= Seq::<(Seq<char>, <V as DeepView>::V)>::empty());
    }
}

/// **Reading back gives the canonical form**: what a metadata map writes reads back as its
/// entries key-sorted, consuming exactly what was written.
pub proof fn law_reading_back_gives_the_canonical_form<V: Codec>(v: Seq<(Seq<char>, <V as DeepView>::V)>, rest: Seq<u8>)
    requires
        Metadata::<V>::encodable(v),
    ensures
        Metadata::<V>::decoding(Metadata::<V>::encoding(v) + rest) == Ok::<(Seq<(Seq<char>, <V as DeepView>::V)>, nat), SerError>(
            (canonical_of(v), Metadata::<V>::encoding(v).len()),
        ),
{
    let c = canonical_of(v);
    law_canonical_sorts_by_key(v);
    assert forall|i: int| 0 <= i < c.len() implies #[trigger] entry_encodable::<V>(c[i]) by {
        assert(c.contains(c[i]));
        let j = choose|j: int| 0 <= j < v.len() && v[j] == c[i];
        assert(entry_encodable::<V>(v[j]));
    }
    let le = spec_u32_to_le_bytes(v.len() as u32);
    lemma_auto_spec_u32_to_from_le_bytes();
    let all = Metadata::<V>::encoding(v) + rest;
    assert(all =~= le + (enc_entries::<V>(c) + rest));
    lemma_take_prefix(le, enc_entries::<V>(c) + rest);
    lemma_dec_entries_round_trip::<V>(c, rest);
}

/// **Two maps that typed the same keys in a different order write the same bytes**: with each key
/// once and the same value under every key, the encodings are equal.
pub proof fn law_typing_order_does_not_show_in_bytes<V: Serialize>(a: Metadata<V>, b: Metadata<V>)
    requires
        keys_distinct(a@),
        keys_distinct(b@),
        forall|k: Seq<char>| #[trigger] value_of(a@, k) == value_of(b@, k),
    ensures
        Metadata::<V>::encoding(a.deep_view()) == Metadata::<V>::encoding(b.deep_view()),
{
    law_typing_order_does_not_show(a@, b@);
    law_canonical_sorts_by_key(a@);
    law_canonical_sorts_by_key(b@);
    lemma_deep_canonical(a@);
    lemma_deep_canonical(b@);
}

} // verus!
