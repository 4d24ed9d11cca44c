//! The rule grammar: predicates over which unlocks a player holds, deciding whether an edge can
//! be crossed or a placement satisfied.

use crate::object::{hex16, ObjectId};
use crate::serialize::{
    after, dec_u32, dec_u64, dec_u8, eof, lemma_take_prefix, Codec, Deserialize, Reader, SerError,
    SerResult, Serialize, Writer,
};
use vstd::bytes::{lemma_auto_spec_u32_to_from_le_bytes, spec_u32_to_le_bytes, spec_u64_to_le_bytes};
use vstd::prelude::*;

verus! {

broadcast use ObjectId::lemma_raw_determines;

/// A predicate over the player's state.
#[derive(Debug, PartialEq, Eq)]
pub enum Rule {
    /// Always satisfied: an open passage.
    Always,
    /// Never satisfied: sealed until something later decides.
    Never,
    /// The player holds this unlock.
    Has(ObjectId),
    /// Every sub-rule holds.
    All(Vec<Rule>),
    /// At least one sub-rule holds.
    Any(Vec<Rule>),
    /// The sub-rule does not hold.
    Not(Box<Rule>),
}

// ---------------------------------------------------------------------------------------------
// Meaning
// ---------------------------------------------------------------------------------------------

/// Does `r` hold for a player holding `held`?
pub open spec fn satisfied(r: Rule, held: Seq<ObjectId>) -> bool
    decreases r, 0nat,
{
    match r {
        Rule::Always => true,
        Rule::Never => false,
        Rule::Has(c) => held.contains(c),
        Rule::All(rs) => all_from(rs@, 0, held),
        Rule::Any(rs) => any_from(rs@, 0, held),
        Rule::Not(b) => !satisfied(*b, held),
    }
}

/// Do the rules of `rs` from index `i` on all hold?
pub open spec fn all_from(rs: Seq<Rule>, i: nat, held: Seq<ObjectId>) -> bool
    decreases rs, rs.len() - i,
{
    if i >= rs.len() {
        true
    } else {
        satisfied(rs[i as int], held) && all_from(rs, i + 1, held)
    }
}

/// Does some rule of `rs` from index `i` on hold?
pub open spec fn any_from(rs: Seq<Rule>, i: nat, held: Seq<ObjectId>) -> bool
    decreases rs, rs.len() - i,
{
    if i >= rs.len() {
        false
    } else {
        satisfied(rs[i as int], held) || any_from(rs, i + 1, held)
    }
}

/// Does `r` mention the unlock `id` anywhere?
pub open spec fn mentions(r: Rule, id: ObjectId) -> bool
    decreases r, 0nat,
{
    match r {
        Rule::Always | Rule::Never => false,
        Rule::Has(c) => c == id,
        Rule::All(rs) => mentions_from(rs@, 0, id),
        Rule::Any(rs) => mentions_from(rs@, 0, id),
        Rule::Not(b) => mentions(*b, id),
    }
}

/// Does some rule of `rs` from index `i` on mention `id`?
pub open spec fn mentions_from(rs: Seq<Rule>, i: nat, id: ObjectId) -> bool
    decreases rs, rs.len() - i,
{
    if i >= rs.len() {
        false
    } else {
        mentions(rs[i as int], id) || mentions_from(rs, i + 1, id)
    }
}

/// How deeply nested `r` is: a leaf is one, a combinator one more than its deepest part.
pub open spec fn depth_of(r: Rule) -> nat
    decreases r, 0nat,
{
    match r {
        Rule::Always | Rule::Never | Rule::Has(_) => 1,
        Rule::All(rs) => 1 + max_depth_from(rs@, 0),
        Rule::Any(rs) => 1 + max_depth_from(rs@, 0),
        Rule::Not(b) => 1 + depth_of(*b),
    }
}

/// The greatest depth among the rules of `rs` from index `i` on; zero for none.
pub open spec fn max_depth_from(rs: Seq<Rule>, i: nat) -> nat
    decreases rs, rs.len() - i,
{
    if i >= rs.len() {
        0
    } else {
        let d = depth_of(rs[i as int]);
        let m = max_depth_from(rs, i + 1);
        if d >= m {
            d
        } else {
            m
        }
    }
}

/// The text of an unlock id in a trace.
pub open spec fn id_text(c: ObjectId) -> Seq<char> {
    seq!['#'] + hex16(c.raw())
}

/// How a rule reads in a trace.
pub open spec fn rule_text(r: Rule) -> Seq<char>
    decreases r, 0nat,
{
    match r {
        Rule::Always => "open"@,
        Rule::Never => "sealed"@,
        Rule::Has(c) => id_text(c),
        Rule::All(rs) => "("@ + joined_from(rs@, 0, " and "@) + ")"@,
        Rule::Any(rs) => "("@ + joined_from(rs@, 0, " or "@) + ")"@,
        Rule::Not(b) => "not "@ + rule_text(*b),
    }
}

/// The texts of the rules of `rs` from index `i` on, separated by `sep`.
pub open spec fn joined_from(rs: Seq<Rule>, i: nat, sep: Seq<char>) -> Seq<char>
    decreases rs, rs.len() - i,
{
    if i >= rs.len() {
        Seq::empty()
    } else if i + 1 == rs.len() {
        rule_text(rs[i as int])
    } else {
        rule_text(rs[i as int]) + sep + joined_from(rs, i + 1, sep)
    }
}

/// Is `v` strictly increasing by raw id, so that it holds no id twice?
pub open spec fn strictly_sorted(v: Seq<ObjectId>) -> bool {
    forall|i: int, j: int| 0 <= i < j < v.len() ==> v[i].raw() < v[j].raw()
}

// ---------------------------------------------------------------------------------------------
// Construction and evaluation
// ---------------------------------------------------------------------------------------------

/// Insert `id` into a strictly sorted list, keeping it strictly sorted.
pub(crate) fn insert_sorted(out: &mut Vec<ObjectId>, id: ObjectId)
    requires
        strictly_sorted(old(out)@),
    ensures
        strictly_sorted(final(out)@),
        forall|x: ObjectId| final(out)@.contains(x) <==> (old(out)@.contains(x) || x == id),
        final(out)@.len() == old(out)@.len() + if old(out)@.contains(id) {
            0int
        } else {
            1int
        },
{
    let mut i: usize = 0;
    while i < out.len() && out[i].to_raw() < id.to_raw()
        invariant
            i <= out@.len(),
            out@ == old(out)@,
            strictly_sorted(out@),
            forall|j: int| 0 <= j < i ==> out@[j].raw() < id.raw(),
        decreases out@.len() - i,
    {
        i += 1;
    }
    if i < out.len() && out[i].to_raw() == id.to_raw() {
        proof {
            assert(out@[i as int] == id);
        }
        return;
    }
    proof {
        if old(out)@.contains(id) {
            let k = choose|k: int| 0 <= k < old(out)@.len() && old(out)@[k] == id;
            if k > i {
                assert(old(out)@[i as int].raw() < old(out)@[k].raw());
            }
        }
    }
    out.insert(i, id);
    proof {
        assert forall|x: ObjectId| final(out)@.contains(x) <==> (old(out)@.contains(x) || x == id) by {
            if old(out)@.contains(x) {
                let k = choose|k: int| 0 <= k < old(out)@.len() && old(out)@[k] == x;
                if k < i {
                    assert(final(out)@[k] == x);
                } else {
                    assert(final(out)@[k + 1] == x);
                }
            }
            if x == id {
                assert(final(out)@[i as int] == x);
            }
            if final(out)@.contains(x) {
                let k = choose|k: int| 0 <= k < final(out)@.len() && final(out)@[k] == x;
                if k < i {
                    assert(old(out)@[k] == x);
                } else if k > i {
                    assert(old(out)@[k - 1] == x);
                }
            }
        }
    }
}

impl Rule {
    /// Requires holding an unlock.
    pub fn has(unlock: ObjectId) -> (r: Rule)
        ensures
            r == Rule::Has(unlock),
    {
        Rule::Has(unlock)
    }

    /// Requires all of a set of unlocks. All of nothing is free; one needs no wrapper.
    pub fn all_of(unlocks: &[ObjectId]) -> (r: Rule)
        ensures
            unlocks@.len() == 0 ==> r == Rule::Always,
            unlocks@.len() == 1 ==> r == Rule::Has(unlocks@[0]),
            unlocks@.len() > 1 ==> (r matches Rule::All(rs) && rs@ == unlocks@.map_values(
                |c: ObjectId| Rule::Has(c),
            )),
    {
        let rules = Self::has_each(unlocks);
        if unlocks.len() == 0 {
            Rule::Always
        } else if unlocks.len() == 1 {
            Rule::Has(unlocks[0])
        } else {
            Rule::All(rules)
        }
    }

    /// Requires any one of a set of unlocks. Any of nothing is unsatisfiable, not free.
    pub fn any_of(unlocks: &[ObjectId]) -> (r: Rule)
        ensures
            unlocks@.len() == 0 ==> r == Rule::Never,
            unlocks@.len() == 1 ==> r == Rule::Has(unlocks@[0]),
            unlocks@.len() > 1 ==> (r matches Rule::Any(rs) && rs@ == unlocks@.map_values(
                |c: ObjectId| Rule::Has(c),
            )),
    {
        let rules = Self::has_each(unlocks);
        if unlocks.len() == 0 {
            Rule::Never
        } else if unlocks.len() == 1 {
            Rule::Has(unlocks[0])
        } else {
            Rule::Any(rules)
        }
    }

    fn has_each(unlocks: &[ObjectId]) -> (rules: Vec<Rule>)
        ensures
            rules@ == unlocks@.map_values(|c: ObjectId| Rule::Has(c)),
    {
        let mut rules: Vec<Rule> = Vec::new();
        let mut i: usize = 0;
        while i < unlocks.len()
            invariant
                i <= unlocks@.len(),
                rules@ == unlocks@.take(i as int).map_values(|c: ObjectId| Rule::Has(c)),
            decreases unlocks@.len() - i,
        {
            rules.push(Rule::Has(unlocks[i]));
            proof {
                assert(unlocks@.take(i + 1).map_values(|c: ObjectId| Rule::Has(c)) =~= unlocks@.take(
                    i as int,
                ).map_values(|c: ObjectId| Rule::Has(c)).push(Rule::Has(unlocks@[i as int])));
            }
            i += 1;
        }
        assert(unlocks@.take(unlocks@.len() as int) =~= unlocks@);
        rules
    }

    /// Is this satisfied by a set of held unlocks?
    #[verifier::loop_isolation(false)]
    pub fn is_satisfied(&self, held: &[ObjectId]) -> (b: bool)
        ensures
            b == satisfied(*self, held@),
        decreases *self,
    {
        match self {
            Rule::Always => true,
            Rule::Never => false,
            Rule::Has(c) => {
                let mut i: usize = 0;
                while i < held.len()
                    invariant
                        i <= held@.len(),
                        forall|j: int| 0 <= j < i ==> held@[j] != *c,
                    decreases held@.len() - i,
                {
                    if held[i].same(*c) {
                        proof {
                            assert(held@[i as int] == *c);
                            assert(held@.contains(*c));
                        }
                        return true;
                    }
                    i += 1;
                }
                false
            },
            Rule::All(rs) => {
                let mut i = rs.len();
                let mut acc = true;
                while i > 0
                    invariant
                        i <= rs@.len(),
                        acc == all_from(rs@, i as nat, held@),
                        forall|j: int| 0 <= j < rs@.len() ==> decreases_to!(*self => rs@[j]),
                    decreases i,
                {
                    i -= 1;
                    let here = rs[i].is_satisfied(held);
                    acc = here && acc;
                }
                acc
            },
            Rule::Any(rs) => {
                let mut i = rs.len();
                let mut acc = false;
                while i > 0
                    invariant
                        i <= rs@.len(),
                        acc == any_from(rs@, i as nat, held@),
                        forall|j: int| 0 <= j < rs@.len() ==> decreases_to!(*self => rs@[j]),
                    decreases i,
                {
                    i -= 1;
                    let here = rs[i].is_satisfied(held);
                    acc = here || acc;
                }
                acc
            },
            Rule::Not(b) => !b.is_satisfied(held),
        }
    }

    /// Is this trivially satisfied regardless of state?
    pub fn is_open(&self) -> (b: bool)
        ensures
            b == (*self is Always),
    {
        match self {
            Rule::Always => true,
            _ => false,
        }
    }

    /// Every unlock mentioned anywhere in the rule, each once, in increasing id order.
    pub fn unlocks(&self) -> (out: Vec<ObjectId>)
        ensures
            strictly_sorted(out@),
            forall|id: ObjectId| out@.contains(id) <==> mentions(*self, id),
    {
        let mut out: Vec<ObjectId> = Vec::new();
        self.collect_unlocks(&mut out);
        out
    }

    fn collect_unlocks(&self, out: &mut Vec<ObjectId>)
        requires
            strictly_sorted(old(out)@),
        ensures
            strictly_sorted(final(out)@),
            forall|id: ObjectId| final(out)@.contains(id) <==> (old(out)@.contains(id) || mentions(*self, id)),
        decreases *self, 1nat,
    {
        match self {
            Rule::Always => {
            },
            Rule::Never => {
            },
            Rule::Has(c) => {
                insert_sorted(out, *c);
            },
            Rule::All(rs) => {
                Self::collect_list(self, rs, out);
                assert(forall|id: ObjectId| mentions(*self, id) == mentions_from(rs@, 0, id));
            },
            Rule::Any(rs) => {
                Self::collect_list(self, rs, out);
                assert(forall|id: ObjectId| mentions(*self, id) == mentions_from(rs@, 0, id));
            },
            Rule::Not(b) => {
                let r: &Rule = b;
                let ghost prev = out@;
                r.collect_unlocks(out);
                assert forall|id: ObjectId| out@.contains(id) <==> (prev.contains(id) || mentions(
                    *self,
                    id,
                )) by {
                    assert(mentions(*self, id) == mentions(*r, id));
                    assert(out@.contains(id) <==> (prev.contains(id) || mentions(*r, id)));
                }
            },
        }
    }

    fn collect_list(whole: &Rule, rs: &Vec<Rule>, out: &mut Vec<ObjectId>)
        requires
            strictly_sorted(old(out)@),
            forall|j: int| 0 <= j < rs@.len() ==> decreases_to!(*whole => rs@[j]),
        ensures
            strictly_sorted(final(out)@),
            forall|id: ObjectId| final(out)@.contains(id) <==> (old(out)@.contains(id)
                || mentions_from(rs@, 0, id)),
        decreases *whole, 0nat,
    {
        let mut i = rs.len();
        while i > 0
            invariant
                i <= rs@.len(),
                strictly_sorted(out@),
                forall|id: ObjectId| out@.contains(id) <==> (old(out)@.contains(id)
                    || mentions_from(rs@, i as nat, id)),
                forall|j: int| 0 <= j < rs@.len() ==> decreases_to!(*whole => rs@[j]),
            decreases i,
        {
            let ghost prev = out@;
            i -= 1;
            rs[i].collect_unlocks(out);
            proof {
                assert forall|id: ObjectId| out@.contains(id) <==> (old(out)@.contains(id)
                    || mentions_from(rs@, i as nat, id)) by {
                    assert(mentions_from(rs@, i as nat, id) == (mentions(rs@[i as int], id)
                        || mentions_from(rs@, (i + 1) as nat, id)));
                    assert(prev.contains(id) <==> (old(out)@.contains(id) || mentions_from(
                        rs@,
                        (i + 1) as nat,
                        id,
                    )));
                }
            }
        }
    }

    /// How deeply nested this rule is.
    #[verifier::loop_isolation(false)]
    pub fn depth(&self) -> (d: u32)
        requires
            depth_of(*self) <= u32::MAX,
        ensures
            d == depth_of(*self),
        decreases *self,
    {
        match self {
            Rule::Always | Rule::Never | Rule::Has(_) => 1,
            Rule::All(rs) | Rule::Any(rs) => {
                let mut i = rs.len();
                let mut best: u32 = 0;
                while i > 0
                    invariant
                        i <= rs@.len(),
                        best == max_depth_from(rs@, i as nat),
                        max_depth_from(rs@, 0) < u32::MAX,
                        forall|j: int| 0 <= j < rs@.len() ==> decreases_to!(*self => rs@[j]),
                    decreases i,
                {
                    i -= 1;
                    proof {
                        lemma_max_depth_bounds(rs@, 0, i as nat);
                    }
                    let d = rs[i].depth();
                    if d >= best {
                        best = d;
                    }
                }
                1 + best
            },
            Rule::Not(b) => 1 + b.depth(),
        }
    }

    /// How the rule reads in a trace: `open`, `sealed`, an id, `(a and b)`, `(a or b)`, `not a`.
    pub fn to_string(&self) -> (s: String)
        ensures
            s@ == rule_text(*self),
        decreases *self,
    {
        match self {
            Rule::Always => String::from_str("open"),
            Rule::Never => String::from_str("sealed"),
            Rule::Has(c) => c.to_string(),
            Rule::All(rs) => Self::joined(self, rs, " and "),
            Rule::Any(rs) => Self::joined(self, rs, " or "),
            Rule::Not(b) => {
                let mut s = String::from_str("not ");
                let t = b.to_string();
                s.append(t.as_str());
                s
            },
        }
    }

    fn joined(whole: &Rule, rs: &Vec<Rule>, sep: &str) -> (s: String)
        requires
            forall|j: int| 0 <= j < rs@.len() ==> decreases_to!(*whole => rs@[j]),
        ensures
            s@ == "("@ + joined_from(rs@, 0, sep@) + ")"@,
        decreases *whole, 1nat,
    {
        let mut i = rs.len();
        let mut tail = String::new();
        while i > 0
            invariant
                i <= rs@.len(),
                tail@ == joined_from(rs@, i as nat, sep@),
                forall|j: int| 0 <= j < rs@.len() ==> decreases_to!(*whole => rs@[j]),
            decreases i,
        {
            i -= 1;
            let mut piece = rs[i].to_string();
            if i + 1 < rs.len() {
                piece.append(sep);
                piece.append(tail.as_str());
            }
            tail = piece;
        }
        let mut s = String::from_str("(");
        s.append(tail.as_str());
        s.append(")");
        s
    }
}

proof fn lemma_max_depth_bounds(rs: Seq<Rule>, i: nat, j: nat)
    requires
        i <= j,
    ensures
        max_depth_from(rs, j) <= max_depth_from(rs, i),
        j < rs.len() ==> depth_of(rs[j as int]) <= max_depth_from(rs, i),
    decreases j - i,
{
    if i < j {
        lemma_max_depth_bounds(rs, i + 1, j);
    }
}

/// A place an item can be put: a slot the schedule planned.
#[derive(Clone, Copy, Debug, PartialEq, Eq, PartialOrd, Ord, Hash)]
pub struct LocationId(pub u32);

impl LocationId {
    /// The trace form, `loc[n]`.
    pub fn to_string(&self) -> (s: String)
        ensures
            s@ == "loc["@ + crate::text::decimal(self.0 as nat) + "]"@,
    {
        let mut s = String::from_str("loc[");
        let d = crate::text::decimal_text(self.0 as u64);
        s.append(d.as_str());
        s.append("]");
        s
    }
}

// ---------------------------------------------------------------------------------------------
// On the wire
// ---------------------------------------------------------------------------------------------

impl DeepView for LocationId {
    type V = u32;

    open spec fn deep_view(&self) -> u32 {
        self.0
    }
}

impl crate::serialize::Serialize for LocationId {
    open spec fn encodable(v: u32) -> bool {
        true
    }

    /// Four little-endian bytes.
    open spec fn encoding(v: u32) -> Seq<u8> {
        vstd::bytes::spec_u32_to_le_bytes(v)
    }

    fn serialize(&self, w: &mut crate::serialize::Writer) {
        w.u32(self.0);
    }
}

impl crate::serialize::Deserialize for LocationId {
    open spec fn decoding(rest: Seq<u8>) -> Result<(u32, nat), crate::serialize::SerError> {
        crate::serialize::dec_u32(rest)
    }

    fn deserialize(r: &mut crate::serialize::Reader<'_>) -> (res: crate::serialize::SerResult<
        LocationId,
    >) {
        let v = r.u32()?;
        Ok(LocationId(v))
    }
}

impl crate::serialize::Codec for LocationId {
    proof fn lemma_round_trip(v: u32, rest: Seq<u8>) {
        <u32 as crate::serialize::Codec>::lemma_round_trip(v, rest);
    }
}

// ---------------------------------------------------------------------------------------------
// Rules on the wire
// ---------------------------------------------------------------------------------------------

/// A rule as plain values: unlocks by raw id, sub-rules as sequences.
pub enum RuleView {
    /// Always satisfied.
    Always,
    /// Never satisfied.
    Never,
    /// Holding the unlock with this raw id.
    Has(u64),
    /// Every one of these.
    All(Seq<RuleView>),
    /// Some one of these.
    Any(Seq<RuleView>),
    /// Not this.
    Not(Box<RuleView>),
}

/// The plain form of a rule.
pub open spec fn rule_view(r: Rule) -> RuleView
    decreases r, 0nat,
{
    match r {
        Rule::Always => RuleView::Always,
        Rule::Never => RuleView::Never,
        Rule::Has(c) => RuleView::Has(c.raw()),
        Rule::All(rs) => RuleView::All(views_upto(rs@, rs@.len())),
        Rule::Any(rs) => RuleView::Any(views_upto(rs@, rs@.len())),
        Rule::Not(b) => RuleView::Not(Box::new(rule_view(*b))),
    }
}

/// The plain forms of the first `n` rules of `rs`.
pub open spec fn views_upto(rs: Seq<Rule>, n: nat) -> Seq<RuleView>
    decreases rs, n,
{
    if n == 0 || n > rs.len() {
        Seq::empty()
    } else {
        views_upto(rs, (n - 1) as nat).push(rule_view(rs[n - 1]))
    }
}

proof fn lemma_views_upto(rs: Seq<Rule>, n: nat)
    requires
        n <= rs.len(),
    ensures
        views_upto(rs, n).len() == n,
        forall|j: int| 0 <= j < n ==> #[trigger] views_upto(rs, n)[j] == rule_view(rs[j]),
    decreases n,
{
    if n > 0 {
        lemma_views_upto(rs, (n - 1) as nat);
    }
}

/// Can a rule be written? Every list in it must fit a `u32` count.
pub open spec fn rule_encodable(v: RuleView) -> bool
    decreases v,
{
    match v {
        RuleView::All(vs) => vs.len() <= u32::MAX && rules_encodable(vs),
        RuleView::Any(vs) => vs.len() <= u32::MAX && rules_encodable(vs),
        RuleView::Not(b) => rule_encodable(*b),
        _ => true,
    }
}

/// Can each of these rules be written?
pub open spec fn rules_encodable(vs: Seq<RuleView>) -> bool
    decreases vs,
{
    vs.len() == 0 || (rule_encodable(vs[0]) && rules_encodable(vs.subrange(1, vs.len() as int)))
}

/// The bytes of a rule: a tag, then what the variant holds. Lists carry a `u32` count.
pub open spec fn enc_rule(v: RuleView) -> Seq<u8>
    decreases v,
{
    match v {
        RuleView::Always => seq![0u8],
        RuleView::Never => seq![1u8],
        RuleView::Has(c) => seq![2u8] + spec_u64_to_le_bytes(c),
        RuleView::All(vs) => seq![3u8] + spec_u32_to_le_bytes(vs.len() as u32) + enc_rules(vs),
        RuleView::Any(vs) => seq![4u8] + spec_u32_to_le_bytes(vs.len() as u32) + enc_rules(vs),
        RuleView::Not(b) => seq![5u8] + enc_rule(*b),
    }
}

/// The bytes of several rules, one after another.
pub open spec fn enc_rules(vs: Seq<RuleView>) -> Seq<u8>
    decreases vs,
{
    if vs.len() == 0 {
        Seq::empty()
    } else {
        enc_rule(vs[0]) + enc_rules(vs.subrange(1, vs.len() as int))
    }
}

/// Reading one rule from the head of `rest`, and how many bytes it takes.
pub open spec fn dec_rule(rest: Seq<u8>) -> Result<(RuleView, nat), SerError>
    decreases rest.len(), 0nat,
{
    match dec_u8(rest) {
        Err(e) => Err(e),
        Ok((t, _)) => if t == 0 {
            Ok((RuleView::Always, 1))
        } else if t == 1 {
            Ok((RuleView::Never, 1))
        } else if t == 2 {
            match dec_u64(rest.skip(1)) {
                Err(e) => Err(e),
                Ok((c, m)) => Ok((RuleView::Has(c), 1 + m)),
            }
        } else if t == 3 || t == 4 {
            match dec_u32(rest.skip(1)) {
                Err(e) => Err(e),
                Ok((n, _)) => match dec_rules(rest.skip(5), n as nat) {
                    Err(e) => Err(e),
                    Ok((vs, m)) => if t == 3 {
                        Ok((RuleView::All(vs), 5 + m))
                    } else {
                        Ok((RuleView::Any(vs), 5 + m))
                    },
                },
            }
        } else if t == 5 {
            match dec_rule(rest.skip(1)) {
                Err(e) => Err(e),
                Ok((b, m)) => Ok((RuleView::Not(Box::new(b)), 1 + m)),
            }
        } else {
            Err(SerError::InvalidValue("unknown Rule tag"))
        },
    }
}

/// Reading `n` rules one after another from the head of `rest`.
pub open spec fn dec_rules(rest: Seq<u8>, n: nat) -> Result<(Seq<RuleView>, nat), SerError>
    decreases rest.len(), n + 1,
{
    if n == 0 {
        Ok((Seq::empty(), 0))
    } else {
        match dec_rule(rest) {
            Err(e) => Err(e),
            Ok((v, k)) => if k > rest.len() {
                Err(eof(k, rest))
            } else {
                match dec_rules(rest.skip(k as int), (n - 1) as nat) {
                    Err(e) => Err(e),
                    Ok((vs, m)) => Ok((seq![v] + vs, k + m)),
                }
            },
        }
    }
}

proof fn lemma_rules_encodable_each(vs: Seq<RuleView>)
    ensures
        rules_encodable(vs) <==> forall|j: int| 0 <= j < vs.len() ==> rule_encodable(#[trigger] vs[j]),
    decreases vs.len(),
{
    if vs.len() > 0 {
        let tail = vs.subrange(1, vs.len() as int);
        lemma_rules_encodable_each(tail);
        assert forall|j: int| 1 <= j < vs.len() implies #[trigger] vs[j] == tail[j - 1] by {}
        if forall|j: int| 0 <= j < vs.len() ==> rule_encodable(#[trigger] vs[j]) {
            assert forall|j: int| 0 <= j < tail.len() implies rule_encodable(#[trigger] tail[j]) by {
                assert(tail[j] == vs[j + 1]);
            }
        }
        if rules_encodable(vs) {
            assert forall|j: int| 0 <= j < vs.len() implies rule_encodable(#[trigger] vs[j]) by {
                if j > 0 {
                    assert(tail[j - 1] == vs[j]);
                }
            }
        }
    }
}

proof fn lemma_enc_rules_push(vs: Seq<RuleView>, x: RuleView)
    ensures
        enc_rules(vs.push(x)) == enc_rules(vs) + enc_rule(x),
    decreases vs.len(),
{
    let p = vs.push(x);
    if vs.len() == 0 {
        assert(p.subrange(1, p.len() as int) =~= Seq::<RuleView>::empty());
        assert(p[0] == x);
        assert(enc_rules(Seq::<RuleView>::empty()) == Seq::<u8>::empty());
        assert(enc_rules(vs) == Seq::<u8>::empty());
        assert(enc_rules(p) =~= enc_rule(x));
    } else {
        let tail = vs.subrange(1, vs.len() as int);
        assert(p.subrange(1, p.len() as int) =~= tail.push(x));
        lemma_enc_rules_push(tail, x);
        assert(enc_rules(p) =~= enc_rules(vs) + enc_rule(x));
    }
}

proof fn lemma_rule_round_trip(v: RuleView, rest: Seq<u8>)
    requires
        rule_encodable(v),
    ensures
        dec_rule(enc_rule(v) + rest) == Ok::<(RuleView, nat), SerError>((v, enc_rule(v).len())),
    decreases v, 0nat,
{
    let all = enc_rule(v) + rest;
    match v {
        RuleView::Always => {
            assert(all[0] == 0u8);
            assert(dec_u8(all) == Ok::<(u8, nat), SerError>((0u8, 1nat)));
            assert(dec_rule(all) == Ok::<(RuleView, nat), SerError>((RuleView::Always, 1nat)));
            assert(enc_rule(v).len() == 1);
        },
        RuleView::Never => {
            assert(all[0] == 1u8);
            assert(dec_u8(all) == Ok::<(u8, nat), SerError>((1u8, 1nat)));
            assert(dec_rule(all) == Ok::<(RuleView, nat), SerError>((v, enc_rule(v).len())));
        },
        RuleView::Has(c) => {
            let body = spec_u64_to_le_bytes(c);
            assert(all =~= seq![2u8] + (body + rest));
            lemma_take_prefix(seq![2u8], body + rest);
            <u64 as Codec>::lemma_round_trip(c, rest);
            assert(dec_rule(all) == Ok::<(RuleView, nat), SerError>((v, enc_rule(v).len())));
        },
        RuleView::All(vs) => {
            lemma_auto_spec_u32_to_from_le_bytes();
            lemma_list_round_trip(3, vs, rest);
            assert(dec_rule(all) == Ok::<(RuleView, nat), SerError>((v, enc_rule(v).len())));
        },
        RuleView::Any(vs) => {
            lemma_auto_spec_u32_to_from_le_bytes();
            lemma_list_round_trip(4, vs, rest);
            assert(dec_rule(all) == Ok::<(RuleView, nat), SerError>((v, enc_rule(v).len())));
        },
        RuleView::Not(b) => {
            assert(all =~= seq![5u8] + (enc_rule(*b) + rest));
            lemma_take_prefix(seq![5u8], enc_rule(*b) + rest);
            lemma_rule_round_trip(*b, rest);
            assert(dec_rule(all) == Ok::<(RuleView, nat), SerError>((v, enc_rule(v).len())));
        },
    }
}

proof fn lemma_list_round_trip(t: u8, vs: Seq<RuleView>, rest: Seq<u8>)
    requires
        t == 3 || t == 4,
        vs.len() <= u32::MAX,
        rules_encodable(vs),
    ensures
        dec_rule(seq![t] + spec_u32_to_le_bytes(vs.len() as u32) + enc_rules(vs) + rest) == Ok::<
            (RuleView, nat),
            SerError,
        >(
            (
                if t == 3 {
                    RuleView::All(vs)
                } else {
                    RuleView::Any(vs)
                },
                5 + enc_rules(vs).len(),
            ),
        ),
    decreases vs, 1nat,
{
    let le = spec_u32_to_le_bytes(vs.len() as u32);
    let body = enc_rules(vs) + rest;
    let all = seq![t] + le + enc_rules(vs) + rest;
    assert(all =~= seq![t] + (le + body));
    lemma_take_prefix(seq![t], le + body);
    lemma_auto_spec_u32_to_from_le_bytes();
    lemma_take_prefix(le, body);
    assert(all.skip(5) =~= body);
    lemma_rules_round_trip(vs, rest);
}

proof fn lemma_rules_round_trip(vs: Seq<RuleView>, rest: Seq<u8>)
    requires
        rules_encodable(vs),
    ensures
        dec_rules(enc_rules(vs) + rest, vs.len()) == Ok::<(Seq<RuleView>, nat), SerError>(
            (vs, enc_rules(vs).len()),
        ),
    decreases vs, 0nat,
{
    if vs.len() > 0 {
        let tail = vs.subrange(1, vs.len() as int);
        let head = enc_rule(vs[0]);
        let after_head = enc_rules(tail) + rest;
        assert(enc_rules(vs) + rest =~= head + after_head);
        lemma_rule_round_trip(vs[0], after_head);
        lemma_take_prefix(head, after_head);
        lemma_rules_round_trip(tail, rest);
        assert(seq![vs[0]] + tail =~= vs);
        let all = enc_rules(vs) + rest;
        assert(dec_rule(all) == Ok::<(RuleView, nat), SerError>((vs[0], head.len())));
        assert(all.skip(head.len() as int) == after_head);
        assert(tail.len() == vs.len() - 1);
        assert(dec_rules(after_head, tail.len()) == Ok::<(Seq<RuleView>, nat), SerError>(
            (tail, enc_rules(tail).len()),
        ));
        assert(enc_rules(vs) == head + enc_rules(tail));
        assert(dec_rules(all, vs.len()) == Ok::<(Seq<RuleView>, nat), SerError>(
            (seq![vs[0]] + tail, head.len() + enc_rules(tail).len()),
        ));
    } else {
        assert(enc_rules(vs) == Seq::<u8>::empty());
        assert(vs =~= Seq::<RuleView>::empty());
    }
}

/// Append a rule's bytes.
fn write_rule(rule: &Rule, w: &mut Writer)
    requires
        rule_encodable(rule_view(*rule)),
    ensures
        final(w)@ == old(w)@ + enc_rule(rule_view(*rule)),
    decreases *rule, 0nat,
{
    match rule {
        Rule::Always => {
            w.u8(0);
            assert(w@ =~= old(w)@ + seq![0u8]);
        },
        Rule::Never => {
            w.u8(1);
            assert(w@ =~= old(w)@ + seq![1u8]);
        },
        Rule::Has(c) => {
            w.u8(2);
            w.u64(c.to_raw());
            assert(w@ =~= old(w)@ + (seq![2u8] + spec_u64_to_le_bytes(c.raw())));
        },
        Rule::All(rs) => {
            w.u8(3);
            proof {
                lemma_views_upto(rs@, rs@.len());
            }
            write_rules(rs, w);
            assert(w@ =~= old(w)@ + enc_rule(rule_view(*rule)));
        },
        Rule::Any(rs) => {
            w.u8(4);
            proof {
                lemma_views_upto(rs@, rs@.len());
            }
            write_rules(rs, w);
            assert(w@ =~= old(w)@ + enc_rule(rule_view(*rule)));
        },
        Rule::Not(b) => {
            w.u8(5);
            write_rule(b, w);
            assert(w@ =~= old(w)@ + enc_rule(rule_view(*rule)));
        },
    }
}

/// Append a count, then each rule's bytes.
#[verifier::loop_isolation(false)]
fn write_rules(rs: &Vec<Rule>, w: &mut Writer)
    requires
        rs@.len() <= u32::MAX,
        rules_encodable(views_upto(rs@, rs@.len())),
    ensures
        final(w)@ == old(w)@ + spec_u32_to_le_bytes(rs@.len() as u32) + enc_rules(
            views_upto(rs@, rs@.len()),
        ),
    decreases *rs, 1nat,
{
    let ghost vs = views_upto(rs@, rs@.len());
    proof {
        lemma_views_upto(rs@, rs@.len());
        lemma_rules_encodable_each(vs);
    }
    w.len(rs.len());
    let ghost start = w@;
    let mut i: usize = 0;
    assert(vs.take(0) =~= Seq::<RuleView>::empty());
    while i < rs.len()
        invariant
            i <= rs@.len(),
            w@ == start + enc_rules(vs.take(i as int)),
            forall|j: int| 0 <= j < rs@.len() ==> decreases_to!(*rs => rs@[j]),
        decreases rs@.len() - i,
    {
        assert(vs[i as int] == rule_view(rs@[i as int]));
        write_rule(&rs[i], w);
        proof {
            assert(vs.take(i + 1) =~= vs.take(i as int).push(vs[i as int]));
            lemma_enc_rules_push(vs.take(i as int), vs[i as int]);
        }
        i += 1;
    }
    assert(vs.take(i as int) =~= vs);
}

/// Read one rule.
fn read_rule(r: &mut Reader<'_>) -> (res: SerResult<Rule>)
    ensures
        final(r).data() == old(r).data(),
        match dec_rule(old(r).rest()) {
            Ok((v, k)) => res matches Ok(x) && rule_view(x) == v && final(r).at() == old(r).at() + k,
            Err(e) => res matches Err(x) && x == e,
        },
    decreases old(r).rest().len(), 0nat,
{
    proof {
        use_type_invariant(&*r);
    }
    let t = r.u8()?;
    proof {
        use_type_invariant(&*r);
        assert(r.rest() =~= old(r).rest().skip(1));
    }
    if t == 0 {
        Ok(Rule::Always)
    } else if t == 1 {
        Ok(Rule::Never)
    } else if t == 2 {
        let c = r.u64()?;
        Ok(Rule::Has(ObjectId::from_raw(c)))
    } else if t == 3 || t == 4 {
        let n = r.u32()?;
        proof {
            use_type_invariant(&*r);
            assert(r.rest() =~= old(r).rest().skip(5));
        }
        let rs = read_rules(r, n)?;
        if t == 3 {
            Ok(Rule::All(rs))
        } else {
            Ok(Rule::Any(rs))
        }
    } else if t == 5 {
        let b = read_rule(r)?;
        Ok(Rule::Not(Box::new(b)))
    } else {
        Err(SerError::InvalidValue("unknown Rule tag"))
    }
}

/// Read `n` rules, one after another.
#[verifier::loop_isolation(false)]
fn read_rules(r: &mut Reader<'_>, n: u32) -> (res: SerResult<Vec<Rule>>)
    ensures
        final(r).data() == old(r).data(),
        match dec_rules(old(r).rest(), n as nat) {
            Ok((vs, k)) => {
                &&& res matches Ok(out)
                &&& views_upto(out@, out@.len()) == vs
                &&& final(r).at() == old(r).at() + k
            },
            Err(e) => res matches Err(x) && x == e,
        },
    decreases old(r).rest().len(), 1nat,
{
    proof {
        use_type_invariant(&*r);
    }
    let ghost rest0 = r.rest();
    let ghost at0 = r.at();
    let mut out: Vec<Rule> = Vec::new();
    let ghost mut used: nat = 0;
    let mut i: u32 = 0;
    proof {
        lemma_views_upto(out@, 0);
        assert(rest0.skip(0) =~= rest0);
    }
    while i < n
        invariant
            i <= n,
            r.data() == old(r).data(),
            r.at() == at0 + used,
            r.at() <= r.data().len(),
            rest0 == old(r).rest(),
            at0 == old(r).at(),
            r.rest() == rest0.skip(used as int),
            out@.len() == i,
            dec_rules(rest0, n as nat) == after(
                views_upto(out@, out@.len()),
                used,
                dec_rules(r.rest(), (n - i) as nat),
            ),
        decreases n - i,
    {
        let ghost before = r.rest();
        let ghost prefix = views_upto(out@, out@.len());
        let ghost earlier = out@;
        let x = match read_rule(r) {
            Ok(x) => x,
            Err(e) => {
                proof {
                    assert(dec_rules(before, (n - i) as nat) == Err::<(Seq<RuleView>, nat), SerError>(e));
                }
                return Err(e);
            },
        };
        proof {
            use_type_invariant(&*r);
            let k = (r.at() - at0 - used) as nat;
            assert(k <= before.len());
            assert(r.rest() =~= before.skip(k as int));
            assert(r.rest() =~= rest0.skip((used + k) as int));
            match dec_rules(r.rest(), (n - i - 1) as nat) {
                Ok((vs, m)) => {
                    assert(prefix + (seq![rule_view(x)] + vs) =~= prefix.push(rule_view(x)) + vs);
                },
                Err(e) => {},
            }
            used = used + k;
        }
        out.push(x);
        proof {
            lemma_views_upto(out@, out@.len());
            lemma_views_upto(earlier, earlier.len());
            assert(views_upto(out@, out@.len()) =~= prefix.push(rule_view(x)));
        }
        i += 1;
    }
    assert(views_upto(out@, out@.len()) + Seq::<RuleView>::empty() =~= views_upto(out@, out@.len()));
    Ok(out)
}

impl DeepView for Rule {
    type V = RuleView;

    open spec fn deep_view(&self) -> RuleView {
        rule_view(*self)
    }
}

impl Serialize for Rule {
    open spec fn encodable(v: RuleView) -> bool {
        rule_encodable(v)
    }

    /// A tag, then what the variant holds; lists carry a `u32` count.
    open spec fn encoding(v: RuleView) -> Seq<u8> {
        enc_rule(v)
    }

    fn serialize(&self, w: &mut Writer) {
        write_rule(self, w);
    }
}

impl Deserialize for Rule {
    open spec fn decoding(rest: Seq<u8>) -> Result<(RuleView, nat), SerError> {
        dec_rule(rest)
    }

    fn deserialize(r: &mut Reader<'_>) -> (res: SerResult<Rule>) {
        read_rule(r)
    }
}

impl Codec for Rule {
    proof fn lemma_round_trip(v: RuleView, rest: Seq<u8>) {
        lemma_rule_round_trip(v, rest);
    }
}

/// A deep copy of a rule.
fn copy_rule(r: &Rule) -> (c: Rule)
    ensures
        rule_view(c) == rule_view(*r),
    decreases *r, 0nat,
{
    match r {
        Rule::Always => Rule::Always,
        Rule::Never => Rule::Never,
        Rule::Has(id) => Rule::Has(*id),
        Rule::All(rs) => {
            let out = copy_rules(rs);
            Rule::All(out)
        },
        Rule::Any(rs) => {
            let out = copy_rules(rs);
            Rule::Any(out)
        },
        Rule::Not(b) => {
            let inner = copy_rule(b);
            Rule::Not(Box::new(inner))
        },
    }
}

/// Deep copies of several rules, in order.
#[verifier::loop_isolation(false)]
fn copy_rules(rs: &Vec<Rule>) -> (out: Vec<Rule>)
    ensures
        views_upto(out@, out@.len()) == views_upto(rs@, rs@.len()),
    decreases *rs, 1nat,
{
    let mut out: Vec<Rule> = Vec::new();
    let mut i: usize = 0;
    proof {
        lemma_views_upto(rs@, rs@.len());
        lemma_views_upto(out@, 0);
    }
    while i < rs.len()
        invariant
            i <= rs@.len(),
            out@.len() == i,
            forall|j: int| 0 <= j < i ==> rule_view(#[trigger] out@[j]) == rule_view(rs@[j]),
            forall|j: int| 0 <= j < rs@.len() ==> decreases_to!(*rs => rs@[j]),
        decreases rs@.len() - i,
    {
        let c = copy_rule(&rs[i]);
        out.push(c);
        i += 1;
    }
    proof {
        lemma_views_upto(out@, out@.len());
        assert(views_upto(out@, out@.len()) =~= views_upto(rs@, rs@.len()));
    }
    out
}

impl Clone for Rule {
    fn clone(&self) -> (c: Rule)
        ensures
            rule_view(c) == rule_view(*self),
    {
        copy_rule(self)
    }
}

// ---------------------------------------------------------------------------------------------
// Monotonicity
// ---------------------------------------------------------------------------------------------

/// Does `r` use no negation? Such a rule can only get easier to meet as more is held.
pub open spec fn negation_free(r: Rule) -> bool
    decreases r, 0nat,
{
    match r {
        Rule::Not(_) => false,
        Rule::All(rs) => free_from(rs@, 0),
        Rule::Any(rs) => free_from(rs@, 0),
        _ => true,
    }
}

/// Are the rules of `rs` from index `i` on all free of negation?
pub open spec fn free_from(rs: Seq<Rule>, i: nat) -> bool
    decreases rs, rs.len() - i,
{
    if i >= rs.len() {
        true
    } else {
        negation_free(rs[i as int]) && free_from(rs, i + 1)
    }
}

/// Everything `a` holds, `b` holds.
pub open spec fn holds_all(a: Seq<ObjectId>, b: Seq<ObjectId>) -> bool {
    forall|c: ObjectId| #[trigger] a.contains(c) ==> b.contains(c)
}

/// **Holding more never un-meets a rule without negation**: if `r` holds for a player holding
/// `held`, it holds for one holding everything that and more.
pub proof fn law_more_held_keeps_a_rule_met(r: Rule, held: Seq<ObjectId>, more: Seq<ObjectId>)
    requires
        negation_free(r),
        satisfied(r, held),
        holds_all(held, more),
    ensures
        satisfied(r, more),
    decreases r, 0nat,
{
    match r {
        Rule::All(rs) => lemma_all_from_grows(rs@, 0, held, more),
        Rule::Any(rs) => lemma_any_from_grows(rs@, 0, held, more),
        _ => {},
    }
}

proof fn lemma_all_from_grows(rs: Seq<Rule>, i: nat, held: Seq<ObjectId>, more: Seq<ObjectId>)
    requires
        free_from(rs, i),
        all_from(rs, i, held),
        holds_all(held, more),
    ensures
        all_from(rs, i, more),
    decreases rs, rs.len() - i,
{
    if i < rs.len() {
        law_more_held_keeps_a_rule_met(rs[i as int], held, more);
        lemma_all_from_grows(rs, i + 1, held, more);
    }
}

proof fn lemma_any_from_grows(rs: Seq<Rule>, i: nat, held: Seq<ObjectId>, more: Seq<ObjectId>)
    requires
        free_from(rs, i),
        any_from(rs, i, held),
        holds_all(held, more),
    ensures
        any_from(rs, i, more),
    decreases rs, rs.len() - i,
{
    if i < rs.len() {
        if satisfied(rs[i as int], held) {
            law_more_held_keeps_a_rule_met(rs[i as int], held, more);
        } else {
            lemma_any_from_grows(rs, i + 1, held, more);
        }
    }
}

} // verus!
