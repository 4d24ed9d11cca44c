//! Tags and tag queries: matching content by what it is, segment by segment.
//!
//! A [`Tag`] is a dotted label (`Enemy.Boss.Dragon`). Segments, not characters, are the unit of
//! matching, so `Enemy.Bossy` is not under `Enemy.Boss`. A [`TagQuery`] carries an explicit
//! exact/inherited toggle, because neither reading is safe to assume.

use crate::text::{chars_of, same_chars, string_from_chars};
use vstd::prelude::*;

verus! {

/// The non-empty dot-separated segments of `s`, in order.
pub open spec fn segs(s: Seq<char>) -> Seq<Seq<char>>
    decreases s.len(),
{
    if s.len() == 0 {
        Seq::empty()
    } else {
        let t = segs(s.drop_last());
        let c = s.last();
        if c == '.' {
            t
        } else if s.len() >= 2 && s[s.len() - 2] != '.' {
            t.update(t.len() - 1, t.last().push(c))
        } else {
            t.push(seq![c])
        }
    }
}

/// Segments joined with dots.
pub open spec fn join(ss: Seq<Seq<char>>) -> Seq<char>
    decreases ss.len(),
{
    if ss.len() == 0 {
        Seq::empty()
    } else if ss.len() == 1 {
        ss[0]
    } else {
        join(ss.drop_last()) + seq!['.'] + ss.last()
    }
}

/// A segment is non-empty and holds no dot.
pub open spec fn good_segment(s: Seq<char>) -> bool {
    s.len() > 0 && !s.contains('.')
}

/// Every segment is good.
pub open spec fn good_segments(ss: Seq<Seq<char>>) -> bool {
    forall|i: int| 0 <= i < ss.len() ==> #[trigger] good_segment(ss[i])
}

/// The character sequences held by a list of character vectors.
pub open spec fn views(v: Seq<Vec<char>>) -> Seq<Seq<char>> {
    v.map_values(|x: Vec<char>| x@)
}

/// The character sequences held by a list of strings.
pub open spec fn str_views(v: Seq<String>) -> Seq<Seq<char>> {
    v.map_values(|x: String| x@)
}

/// Is `p` a prefix of `s`, segment by segment?
pub open spec fn seg_prefix(p: Seq<Seq<char>>, s: Seq<Seq<char>>) -> bool {
    p.len() <= s.len() && forall|i: int| 0 <= i < p.len() ==> #[trigger] p[i] == s[i]
}

// ---------------------------------------------------------------------------------------------
// Splitting inverts joining
// ---------------------------------------------------------------------------------------------

proof fn lemma_segs_good(s: Seq<char>)
    ensures
        good_segments(segs(s)),
        s.len() > 0 && s.last() != '.' ==> segs(s).len() > 0,
    decreases s.len(),
{
    if s.len() > 0 {
        lemma_segs_good(s.drop_last());
        let t = segs(s.drop_last());
        let c = s.last();
        if c != '.' && s.len() >= 2 && s[s.len() - 2] != '.' {
            assert(s.drop_last().last() == s[s.len() - 2]);
            let u = t.last().push(c);
            assert(good_segment(t[t.len() - 1]));
            assert(!u.contains('.')) by {
                if u.contains('.') {
                    let k = choose|k: int| 0 <= k < u.len() && u[k] == '.';
                    assert(t.last()[k] == '.');
                }
            }
            assert forall|i: int| 0 <= i < segs(s).len() implies #[trigger] good_segment(
                segs(s)[i],
            ) by {
                if i < t.len() - 1 {
                    assert(segs(s)[i] == t[i]);
                }
            }
        } else if c != '.' {
            assert(!seq![c].contains('.')) by {
                if seq![c].contains('.') {
                    let k = choose|k: int| 0 <= k < 1 && seq![c][k] == '.';
                }
            }
            assert forall|i: int| 0 <= i < segs(s).len() implies #[trigger] good_segment(
                segs(s)[i],
            ) by {
                if i < t.len() {
                    assert(segs(s)[i] == t[i]);
                }
            }
        }
    }
}

/// Splitting a dot-free non-empty run appended after a dot adds exactly that run.
proof fn lemma_segs_after_dot(x: Seq<char>, b: Seq<char>)
    requires
        good_segment(b),
    ensures
        segs(x + seq!['.'] + b) == segs(x).push(b),
    decreases b.len(),
{
    let xd = x + seq!['.'];
    assert(xd.drop_last() =~= x);
    assert(segs(xd) == segs(x));
    if b.len() == 1 {
        let s = xd + b;
        assert(s.drop_last() =~= xd);
        assert(s.last() == b[0]);
        assert(b[0] != '.') by {
            if b[0] == '.' {
                assert(b.contains('.'));
            }
        }
        assert(s[s.len() - 2] == '.');
        assert(seq![b[0]] =~= b);
    } else {
        let b1 = b.drop_last();
        assert(good_segment(b1)) by {
            if b1.contains('.') {
                let k = choose|k: int| 0 <= k < b1.len() && b1[k] == '.';
                assert(b[k] == '.');
            }
        }
        lemma_segs_after_dot(x, b1);
        let s = xd + b;
        assert(s.drop_last() =~= xd + b1);
        assert(s.last() == b.last());
        assert(b.last() != '.') by {
            if b.last() == '.' {
                assert(b[b.len() - 1] == '.');
            }
        }
        assert(s[s.len() - 2] == b1.last());
        assert(b1.last() != '.') by {
            if b1.last() == '.' {
                assert(b1[b1.len() - 1] == '.');
            }
        }
        assert(b1.push(b.last()) =~= b);
        let t = segs(x).push(b1);
        assert(t.update(t.len() - 1, t.last().push(b.last())) =~= segs(x).push(b));
    }
}

/// Splitting a dot-free non-empty run gives that run.
proof fn lemma_segs_single(b: Seq<char>)
    requires
        good_segment(b),
    ensures
        segs(b) == seq![b],
    decreases b.len(),
{
    assert(b.last() != '.') by {
        if b.last() == '.' {
            assert(b[b.len() - 1] == '.');
        }
    }
    if b.len() == 1 {
        assert(b.drop_last() =~= Seq::<char>::empty());
        assert(segs(b.drop_last()) == Seq::<Seq<char>>::empty());
        assert(seq![b.last()] =~= b);
        assert(segs(b) == Seq::<Seq<char>>::empty().push(seq![b.last()]));
        assert(segs(b) =~= seq![b]);
    } else {
        let b1 = b.drop_last();
        assert(good_segment(b1)) by {
            if b1.contains('.') {
                let k = choose|k: int| 0 <= k < b1.len() && b1[k] == '.';
                assert(b[k] == '.');
            }
        }
        lemma_segs_single(b1);
        assert(b[b.len() - 2] == b1.last());
        assert(b1.last() != '.') by {
            if b1.last() == '.' {
                assert(b1[b1.len() - 1] == '.');
            }
        }
        assert(b1.push(b.last()) =~= b);
        assert(seq![b1].update(0, b1.push(b.last())) =~= seq![b]);
    }
}

/// **Splitting inverts joining**: good segments joined with dots split back into themselves.
pub proof fn lemma_segs_join(ss: Seq<Seq<char>>)
    requires
        good_segments(ss),
    ensures
        segs(join(ss)) == ss,
    decreases ss.len(),
{
    if ss.len() == 1 {
        assert(good_segment(ss[0]));
        lemma_segs_single(ss[0]);
        assert(seq![ss[0]] =~= ss);
    } else if ss.len() > 1 {
        let init = ss.drop_last();
        assert forall|i: int| 0 <= i < init.len() implies #[trigger] good_segment(init[i]) by {
            assert(good_segment(ss[i]));
        }
        lemma_segs_join(init);
        assert(good_segment(ss[ss.len() - 1]));
        lemma_segs_after_dot(join(init), ss.last());
        assert(init.push(ss.last()) =~= ss);
    }
}

// ---------------------------------------------------------------------------------------------
// Executable splitting and joining
// ---------------------------------------------------------------------------------------------

/// The non-empty dot-separated segments of `s`.
fn split_dots(s: &[char]) -> (out: Vec<Vec<char>>)
    ensures
        views(out@) == segs(s@),
{
    let mut out: Vec<Vec<char>> = Vec::new();
    let mut cur: Vec<char> = Vec::new();
    let mut i: usize = 0;
    while i < s.len()
        invariant
            i <= s@.len(),
            segs(s@.take(i as int)) == if cur@.len() == 0 {
                views(out@)
            } else {
                views(out@).push(cur@)
            },
            cur@.len() > 0 ==> i > 0 && s@[i - 1] != '.',
            cur@.len() == 0 ==> i == 0 || s@[i - 1] == '.',
        decreases s@.len() - i,
    {
        let c = s[i];
        let ghost before_out = views(out@);
        let ghost before_cur = cur@;
        let ghost t = s@.take(i + 1);
        proof {
            assert(t.drop_last() =~= s@.take(i as int));
            assert(t.last() == c);
            if i >= 1 {
                assert(t[t.len() - 2] == s@[i - 1]);
            }
        }
        if c == '.' {
            if cur.len() > 0 {
                out.push(cur);
                cur = Vec::new();
                proof {
                    assert(views(out@) =~= before_out.push(before_cur));
                }
            }
        } else {
            cur.push(c);
            proof {
                if before_cur.len() > 0 {
                    let u = before_out.push(before_cur);
                    assert(u.update(u.len() - 1, u.last().push(c)) =~= before_out.push(cur@));
                } else {
                    assert(cur@ =~= seq![c]);
                }
            }
        }
        i += 1;
    }
    if cur.len() > 0 {
        let ghost before_out = views(out@);
        out.push(cur);
        proof {
            assert(views(out@) =~= before_out.push(cur@));
        }
    }
    assert(s@.take(s@.len() as int) =~= s@);
    out
}

/// Segments joined with dots.
fn join_dots(ss: &Vec<Vec<char>>, n: usize) -> (out: Vec<char>)
    requires
        n <= ss@.len(),
    ensures
        out@ == join(views(ss@).take(n as int)),
{
    let mut out: Vec<char> = Vec::new();
    let mut i: usize = 0;
    while i < n
        invariant
            i <= n <= ss@.len(),
            out@ == join(views(ss@).take(i as int)),
        decreases n - i,
    {
        let ghost before = out@;
        let ghost t = views(ss@).take(i + 1);
        proof {
            assert(t.drop_last() =~= views(ss@).take(i as int));
            assert(t.last() == ss@[i as int]@);
        }
        if i > 0 {
            out.push('.');
        }
        let seg = &ss[i];
        let mut j: usize = 0;
        while j < seg.len()
            invariant
                j <= seg@.len(),
                out@ == (if i > 0 {
                    before + seq!['.']
                } else {
                    before
                }) + seg@.take(j as int),
            decreases seg@.len() - j,
        {
            out.push(seg[j]);
            proof {
                assert(seg@.take(j + 1) =~= seg@.take(j as int).push(seg@[j as int]));
            }
            j += 1;
        }
        proof {
            assert(seg@.take(seg@.len() as int) =~= seg@);
            if i == 0 {
                assert(out@ =~= join(t));
            } else {
                assert(out@ =~= join(t));
            }
        }
        i += 1;
    }
    out
}

// ---------------------------------------------------------------------------------------------
// Tag and TagQuery
// ---------------------------------------------------------------------------------------------

/// A dotted label, stored in its normal form: good segments joined by single dots.
#[derive(Debug, PartialEq, Eq, PartialOrd, Ord, Hash)]
pub struct Tag(String);

impl Clone for Tag {
    /// The same tag.
    fn clone(&self) -> (t: Tag)
        ensures
            t == *self,
    {
        proof {
            use_type_invariant(self);
        }
        Tag(self.0.clone())
    }
}

impl Tag {
    /// The dotted text.
    pub closed spec fn text(self) -> Seq<char> {
        self.0@
    }

    /// The segments, outermost first.
    pub open spec fn segments_spec(self) -> Seq<Seq<char>> {
        segs(self.text())
    }

    /// The stored text is the normal form of its own segments; every tag is kept so.
    #[verifier::type_invariant]
    pub closed spec fn wf(self) -> bool {
        self.text() == join(segs(self.text()))
    }

    /// A tag from a dotted string. Empty segments are dropped, so `a..b` and `a.b` are one tag.
    pub fn new(dotted: &str) -> (t: Tag)
        ensures
            t.text() == join(segs(dotted@)),
            t.segments_spec() == segs(dotted@),
            t.wf(),
    {
        let c = chars_of(dotted);
        let parts = split_dots(c.as_slice());
        let joined = join_dots(&parts, parts.len());
        proof {
            assert(views(parts@).take(parts@.len() as int) =~= views(parts@));
            lemma_segs_good(dotted@);
            lemma_segs_join(segs(dotted@));
        }
        Tag(string_from_chars(joined.as_slice()))
    }

    /// The dotted form.
    pub fn as_str(&self) -> (s: &str)
        ensures
            s@ == self.text(),
    {
        self.0.as_str()
    }

    /// The segments, outermost first.
    pub fn segments(&self) -> (v: Vec<String>)
        ensures
            str_views(v@) == self.segments_spec(),
    {
        let c = chars_of(self.0.as_str());
        let parts = split_dots(c.as_slice());
        let mut v: Vec<String> = Vec::new();
        let mut i: usize = 0;
        while i < parts.len()
            invariant
                i <= parts@.len(),
                views(parts@) == self.segments_spec(),
                str_views(v@) == views(parts@).take(i as int),
            decreases parts@.len() - i,
        {
            let piece = string_from_chars(parts[i].as_slice());
            let ghost prev = str_views(v@);
            v.push(piece);
            proof {
                assert(str_views(v@) =~= prev.push(parts@[i as int]@));
                assert(views(parts@).take(i + 1) =~= views(parts@).take(i as int).push(
                    parts@[i as int]@,
                ));
            }
            i += 1;
        }
        assert(views(parts@).take(parts@.len() as int) =~= views(parts@));
        v
    }

    /// How many segments deep this tag is. `Enemy.Boss` is 2.
    pub fn depth(&self) -> (n: usize)
        ensures
            n == self.segments_spec().len(),
    {
        let c = chars_of(self.0.as_str());
        let parts = split_dots(c.as_slice());
        parts.len()
    }

    /// Is this tag `other`, or a refinement of it? Segment-wise: `Enemy.Bossy` is not under
    /// `Enemy.Boss`.
    pub fn is_under(&self, other: &Tag) -> (b: bool)
        ensures
            b == seg_prefix(other.segments_spec(), self.segments_spec()),
    {
        let mine_c = chars_of(self.0.as_str());
        let theirs_c = chars_of(other.0.as_str());
        let mine = split_dots(mine_c.as_slice());
        let theirs = split_dots(theirs_c.as_slice());
        if theirs.len() > mine.len() {
            return false;
        }
        let mut i: usize = 0;
        while i < theirs.len()
            invariant
                theirs@.len() <= mine@.len(),
                i <= theirs@.len(),
                views(mine@) == self.segments_spec(),
                views(theirs@) == other.segments_spec(),
                forall|j: int| 0 <= j < i ==> #[trigger] views(theirs@)[j] == views(mine@)[j],
            decreases theirs@.len() - i,
        {
            if !same_chars(theirs[i].as_slice(), mine[i].as_slice()) {
                proof {
                    assert(views(theirs@)[i as int] != views(mine@)[i as int]);
                }
                return false;
            }
            i += 1;
        }
        true
    }

    /// The tag one level out: `Enemy.Boss.Dragon` gives `Enemy.Boss`; `None` at the root.
    pub fn parent(&self) -> (p: Option<Tag>)
        ensures
            self.segments_spec().len() <= 1 ==> p is None,
            self.segments_spec().len() > 1 ==> (p matches Some(t) && t.segments_spec()
                == self.segments_spec().drop_last() && t.wf()),
    {
        proof {
            use_type_invariant(self);
        }
        let c = chars_of(self.0.as_str());
        let parts = split_dots(c.as_slice());
        if parts.len() <= 1 {
            return None;
        }
        let joined = join_dots(&parts, parts.len() - 1);
        proof {
            let ss = self.segments_spec();
            lemma_segs_good(self.text());
            assert(views(parts@).take(parts@.len() - 1) =~= ss.drop_last());
            assert forall|i: int| 0 <= i < ss.drop_last().len() implies #[trigger] good_segment(
                ss.drop_last()[i],
            ) by {
                assert(good_segment(ss[i]));
            }
            lemma_segs_join(ss.drop_last());
        }
        Some(Tag(string_from_chars(joined.as_slice())))
    }

    /// Are these the same tag?
    pub fn same(&self, other: &Tag) -> (b: bool)
        ensures
            b == (self.text() == other.text()),
    {
        let x = chars_of(self.0.as_str());
        let y = chars_of(other.0.as_str());
        same_chars(x.as_slice(), y.as_slice())
    }
}

/// **Two spellings of one thing are one tag.** Tags built from strings with the same segments
/// are identical, and the segments of a built tag are those of the string it was built from.
pub proof fn law_tags_normalise(a: Seq<char>, b: Seq<char>)
    requires
        segs(a) == segs(b),
    ensures
        join(segs(a)) == join(segs(b)),
        segs(join(segs(a))) == segs(a),
{
    lemma_segs_good(a);
    lemma_segs_join(segs(a));
}

/// A tag match, with the exact/inherited toggle.
#[derive(Clone, Debug, PartialEq, Eq, PartialOrd, Ord, Hash)]
pub struct TagQuery {
    /// What is being matched against.
    pub tag: Tag,
    /// Match refinements too, or only the tag itself.
    pub inherited: bool,
}

/// Does `q` match the candidate?
pub open spec fn query_matches(q: TagQuery, candidate: Tag) -> bool {
    if q.inherited {
        seg_prefix(q.tag.segments_spec(), candidate.segments_spec())
    } else {
        candidate.text() == q.tag.text()
    }
}

impl TagQuery {
    /// This tag and anything under it.
    pub fn inherited(dotted: &str) -> (q: TagQuery)
        ensures
            q.inherited,
            q.tag.text() == join(segs(dotted@)),
            q.tag.segments_spec() == segs(dotted@),
    {
        TagQuery { tag: Tag::new(dotted), inherited: true }
    }

    /// This tag and nothing else.
    pub fn exact(dotted: &str) -> (q: TagQuery)
        ensures
            !q.inherited,
            q.tag.text() == join(segs(dotted@)),
            q.tag.segments_spec() == segs(dotted@),
    {
        TagQuery { tag: Tag::new(dotted), inherited: false }
    }

    /// Does this candidate tag match?
    pub fn matches(&self, candidate: &Tag) -> (b: bool)
        ensures
            b == query_matches(*self, *candidate),
    {
        if self.inherited {
            candidate.is_under(&self.tag)
        } else {
            candidate.same(&self.tag)
        }
    }

    /// Does any of a tag set match?
    pub fn matches_any(&self, tags: &[Tag]) -> (b: bool)
        ensures
            b == exists|i: int| 0 <= i < tags@.len() && query_matches(*self, #[trigger] tags@[i]),
    {
        let mut i: usize = 0;
        while i < tags.len()
            invariant
                i <= tags@.len(),
                forall|j: int| 0 <= j < i ==> !query_matches(*self, #[trigger] tags@[j]),
            decreases tags@.len() - i,
        {
            if self.matches(&tags[i]) {
                return true;
            }
            i += 1;
        }
        false
    }
}

/// **A broader query never matches a narrower tag backwards**: an inherited query matches a
/// candidate only if the candidate has at least as many segments, and a tag is always under
/// itself.
pub proof fn law_matching_is_segment_prefix(q: TagQuery, c: Tag)
    requires
        q.inherited,
    ensures
        query_matches(q, c) ==> q.tag.segments_spec().len() <= c.segments_spec().len(),
        query_matches(TagQuery { tag: c, inherited: true }, c),
{
}

} // verus!
