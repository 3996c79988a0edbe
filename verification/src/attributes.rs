use vstd::prelude::*;

use crate::counts::bump;
use crate::counts::bump_entry;
use crate::counts::count_of;
use crate::counts::counts_wf;
use crate::counts::get_entry;
use crate::counts::lemma_bump_count;
use crate::counts::lemma_bump_frame;
use crate::counts::lemma_bump_sum;
use crate::counts::lemma_bump_wf;
use crate::counts::lemma_count_bounds;
use crate::counts::pairs_view;
use crate::counts::sum_of;
use crate::counts::CountSeq;

verus! {

/// A frequency table: for each attribute ever seen in training, a count table
/// from labels to how often the attribute was seen under each.
pub type AttrSeq = Seq<(Seq<char>, CountSeq)>;

pub open spec fn attr_wf(t: AttrSeq) -> bool {
    &&& forall|i: int, j: int| 0 <= i < j < t.len() ==> t[i].0 != t[j].0
    &&& forall|i: int| 0 <= i < t.len() ==> counts_wf(#[trigger] t[i].1) && t[i].1.len() >= 1
}

/// Whether the attribute was ever seen in training, under any label.
pub open spec fn attr_has(t: AttrSeq, a: Seq<char>) -> bool {
    exists|i: int| 0 <= i < t.len() && t[i].0 == a
}

/// The attribute's count table; empty when the attribute was never seen.
pub open spec fn row_of(t: AttrSeq, a: Seq<char>) -> CountSeq
    decreases t.len(),
{
    if t.len() == 0 {
        Seq::empty()
    } else if t[0].0 == a {
        t[0].1
    } else {
        row_of(t.drop_first(), a)
    }
}

/// How often attribute `a` was seen under label `l`; zero when never.
pub open spec fn attr_count(t: AttrSeq, a: Seq<char>, l: Seq<char>) -> int {
    count_of(row_of(t, a), l)
}

/// The total number of recordings over all attributes and labels.
pub open spec fn attr_total(t: AttrSeq) -> int
    decreases t.len(),
{
    if t.len() == 0 {
        0
    } else {
        sum_of(t[0].1) + attr_total(t.drop_first())
    }
}

/// Recording attribute `a` under label `l` once more.
pub open spec fn attr_add(t: AttrSeq, a: Seq<char>, l: Seq<char>) -> AttrSeq
    decreases t.len(),
{
    if t.len() == 0 {
        seq![(a, seq![(l, 1int)])]
    } else if t[0].0 == a {
        seq![(t[0].0, bump(t[0].1, l))] + t.drop_first()
    } else {
        seq![t[0]] + attr_add(t.drop_first(), a, l)
    }
}

proof fn lemma_acons_drop(x: (Seq<char>, CountSeq), t: AttrSeq)
    ensures
        (seq![x] + t).len() == t.len() + 1,
        (seq![x] + t)[0] == x,
        (seq![x] + t).drop_first() =~= t,
{
}

proof fn lemma_drop_facts(t: AttrSeq)
    requires
        t.len() > 0,
    ensures
        forall|i: int| 0 <= i < t.drop_first().len() ==> t.drop_first()[i] == t[i + 1],
{
}

/// Adding rewrites the row of `a` as `bump` says and leaves other rows alone.
pub proof fn lemma_attr_add_row(t: AttrSeq, a: Seq<char>, l: Seq<char>, b: Seq<char>)
    ensures
        row_of(attr_add(t, a, l), a) == bump(row_of(t, a), l),
        b != a ==> row_of(attr_add(t, a, l), b) == row_of(t, b),
        attr_has(attr_add(t, a, l), b) == (attr_has(t, b) || b == a),
    decreases t.len(),
{
    if t.len() == 0 {
        reveal_with_fuel(row_of, 3);
        reveal_with_fuel(bump, 2);
        let n = seq![(a, seq![(l, 1int)])];
        assert(n.drop_first() =~= Seq::<(Seq<char>, CountSeq)>::empty());
        assert(row_of(t, a) =~= Seq::<(Seq<char>, int)>::empty());
        assert(bump(row_of(t, a), l) =~= seq![(l, 1int)]);
        assert(attr_has(n, b) == (attr_has(t, b) || b == a)) by {
            assert(n[0].0 == a);
            if attr_has(n, b) {
                let i = choose|i: int| 0 <= i < n.len() && n[i].0 == b;
                assert(i == 0);
            }
        }
    } else if t[0].0 == a {
        let n = seq![(t[0].0, bump(t[0].1, l))] + t.drop_first();
        lemma_acons_drop((t[0].0, bump(t[0].1, l)), t.drop_first());
        if b != a {
            assert(row_of(n, b) == row_of(t.drop_first(), b));
            assert(row_of(t, b) == row_of(t.drop_first(), b));
        }
        assert(attr_has(n, b) == (attr_has(t, b) || b == a)) by {
            if attr_has(n, b) {
                let i = choose|i: int| 0 <= i < n.len() && n[i].0 == b;
                assert(t[i].0 == b);
            }
            if attr_has(t, b) {
                let i = choose|i: int| 0 <= i < t.len() && t[i].0 == b;
                assert(n[i].0 == b);
            }
            if b == a {
                assert(n[0].0 == b);
            }
        }
    } else {
        lemma_attr_add_row(t.drop_first(), a, l, b);
        lemma_drop_facts(t);
        let m = attr_add(t.drop_first(), a, l);
        let n = seq![t[0]] + m;
        lemma_acons_drop(t[0], m);
        assert(attr_has(n, b) == (attr_has(t, b) || b == a)) by {
            if attr_has(n, b) {
                let i = choose|i: int| 0 <= i < n.len() && n[i].0 == b;
                if i == 0 {
                    assert(t[0].0 == b);
                } else {
                    assert(m[i - 1].0 == b);
                    assert(attr_has(m, b));
                }
            }
            if attr_has(t, b) {
                let i = choose|i: int| 0 <= i < t.len() && t[i].0 == b;
                if i == 0 {
                    assert(n[0].0 == b);
                } else {
                    assert(t.drop_first()[i - 1].0 == b);
                    assert(attr_has(t.drop_first(), b));
                    let j = choose|j: int| 0 <= j < m.len() && m[j].0 == b;
                    assert(n[j + 1].0 == b);
                }
            }
            if b == a {
                assert(attr_has(m, b));
                let j = choose|j: int| 0 <= j < m.len() && m[j].0 == b;
                assert(n[j + 1].0 == b);
            }
        }
    }
}

/// One recording raises exactly the recorded pair's count, by one.
pub proof fn lemma_attr_add_count(
    t: AttrSeq,
    b: Seq<char>,
    l: Seq<char>,
    a: Seq<char>,
    m: Seq<char>,
)
    ensures
        attr_count(attr_add(t, b, l), a, m) == attr_count(t, a, m) + if a == b && m == l {
            1int
        } else {
            0int
        },
{
    lemma_attr_add_row(t, b, l, a);
    if a == b {
        if m == l {
            lemma_bump_count(row_of(t, a), l);
        } else {
            lemma_bump_frame(row_of(t, a), l, m);
        }
    }
}

/// Each recording raises the grand total by exactly one.
pub proof fn lemma_attr_add_total(t: AttrSeq, a: Seq<char>, l: Seq<char>)
    ensures
        attr_total(attr_add(t, a, l)) == attr_total(t) + 1,
    decreases t.len(),
{
    if t.len() == 0 {
        reveal_with_fuel(sum_of, 3);
        reveal_with_fuel(attr_total, 3);
        let n = seq![(a, seq![(l, 1int)])];
        assert(n.drop_first() =~= Seq::<(Seq<char>, CountSeq)>::empty());
        assert(seq![(l, 1int)].drop_first() =~= Seq::<(Seq<char>, int)>::empty());
        assert(sum_of(seq![(l, 1int)]) == 1);
    } else if t[0].0 == a {
        lemma_acons_drop((t[0].0, bump(t[0].1, l)), t.drop_first());
        lemma_bump_sum(t[0].1, l);
    } else {
        lemma_attr_add_total(t.drop_first(), a, l);
        lemma_acons_drop(t[0], attr_add(t.drop_first(), a, l));
    }
}

/// Adding preserves well-formedness.
pub proof fn lemma_attr_add_wf(t: AttrSeq, a: Seq<char>, l: Seq<char>)
    requires
        attr_wf(t),
    ensures
        attr_wf(attr_add(t, a, l)),
    decreases t.len(),
{
    if t.len() == 0 {
        let n = seq![(a, seq![(l, 1int)])];
        assert(counts_wf(seq![(l, 1int)]));
    } else if t[0].0 == a {
        let n = seq![(t[0].0, bump(t[0].1, l))] + t.drop_first();
        lemma_acons_drop((t[0].0, bump(t[0].1, l)), t.drop_first());
        lemma_bump_wf(t[0].1, l);
        assert(bump(t[0].1, l).len() >= 1);
        assert forall|i: int, j: int| 0 <= i < j < n.len() implies n[i].0 != n[j].0 by {
            assert(n[i].0 == t[i].0);
            assert(n[j].0 == t[j].0);
        }
        assert forall|i: int| 0 <= i < n.len() implies counts_wf(#[trigger] n[i].1) && n[i].1.len()
            >= 1 by {
            if i > 0 {
                assert(n[i] == t[i]);
            }
        }
    } else {
        lemma_drop_facts(t);
        lemma_attr_add_wf(t.drop_first(), a, l);
        let m = attr_add(t.drop_first(), a, l);
        let n = seq![t[0]] + m;
        lemma_acons_drop(t[0], m);
        lemma_attr_add_row(t.drop_first(), a, l, t[0].0);
        assert forall|i: int| 0 <= i < n.len() implies counts_wf(#[trigger] n[i].1) && n[i].1.len()
            >= 1 by {
            if i > 0 {
                assert(n[i] == m[i - 1]);
            }
        }
        assert forall|i: int, j: int| 0 <= i < j < n.len() implies n[i].0 != n[j].0 by {
            if i == 0 {
                assert(n[j].0 == m[j - 1].0);
                if n[0].0 == m[j - 1].0 {
                    assert(attr_has(m, t[0].0)) by {
                        assert(m[j - 1].0 == t[0].0);
                    }
                    assert(attr_has(t.drop_first(), t[0].0) || t[0].0 == a);
                    if attr_has(t.drop_first(), t[0].0) {
                        let k = choose|k: int| 0 <= k < t.drop_first().len() && t.drop_first()[k].0
                            == t[0].0;
                        assert(t[k + 1].0 == t[0].0);
                    }
                }
            } else {
                assert(n[i].0 == m[i - 1].0);
                assert(n[j].0 == m[j - 1].0);
            }
        }
    }
}

/// No row's sum exceeds the grand total, and every sum is non-negative.
pub proof fn lemma_row_le_total(t: AttrSeq, a: Seq<char>)
    requires
        attr_wf(t),
    ensures
        0 <= sum_of(row_of(t, a)) <= attr_total(t),
        attr_total(t) >= 0,
    decreases t.len(),
{
    if t.len() == 0 {
        assert(sum_of(row_of(t, a)) == 0);
    } else {
        lemma_drop_facts(t);
        lemma_row_le_total(t.drop_first(), a);
        lemma_count_bounds(t[0].1, a);
    }
}

/// A never-seen attribute has zero counts under every label.
pub proof fn lemma_attr_absent(t: AttrSeq, a: Seq<char>)
    requires
        !attr_has(t, a),
    ensures
        forall|l: Seq<char>| attr_count(t, a, l) == 0,
    decreases t.len(),
{
    if t.len() == 0 {
        assert forall|l: Seq<char>| attr_count(t, a, l) == 0 by {
            assert(row_of(t, a) =~= Seq::<(Seq<char>, int)>::empty());
        }
    } else {
        assert(t[0].0 != a);
        assert(!attr_has(t.drop_first(), a)) by {
            lemma_drop_facts(t);
            if attr_has(t.drop_first(), a) {
                let j = choose|j: int| 0 <= j < t.drop_first().len() && t.drop_first()[j].0 == a;
                assert(t[j + 1].0 == a);
            }
        }
        lemma_attr_absent(t.drop_first(), a);
        assert forall|l: Seq<char>| attr_count(t, a, l) == 0 by {
            assert(attr_count(t.drop_first(), a, l) == 0);
        }
    }
}

/// When the first entry for `a` stands at index `i`, that entry is the row,
/// and adding rewrites exactly that entry.
pub proof fn lemma_attr_first_match(t: AttrSeq, a: Seq<char>, l: Seq<char>, i: int)
    requires
        0 <= i < t.len(),
        t[i].0 == a,
        forall|j: int| 0 <= j < i ==> t[j].0 != a,
    ensures
        row_of(t, a) == t[i].1,
        attr_add(t, a, l) == t.update(i, (a, bump(t[i].1, l))),
    decreases i,
{
    if i == 0 {
        assert(attr_add(t, a, l) =~= t.update(0, (a, bump(t[0].1, l))));
    } else {
        lemma_drop_facts(t);
        assert(t.drop_first()[i - 1].0 == a);
        lemma_attr_first_match(t.drop_first(), a, l, i - 1);
        lemma_acons_drop(t[0], attr_add(t.drop_first(), a, l));
        assert(attr_add(t, a, l) =~= t.update(i, (a, bump(t[i].1, l)))) by {
            assert(attr_add(t.drop_first(), a, l) == t.drop_first().update(
                i - 1,
                (a, bump(t[i].1, l)),
            ));
        }
    }
}

/// Adding a never-seen attribute appends a fresh row.
pub proof fn lemma_attr_add_absent(t: AttrSeq, a: Seq<char>, l: Seq<char>)
    requires
        forall|j: int| 0 <= j < t.len() ==> t[j].0 != a,
    ensures
        attr_add(t, a, l) == t.push((a, seq![(l, 1int)])),
    decreases t.len(),
{
    if t.len() == 0 {
        assert(attr_add(t, a, l) =~= t.push((a, seq![(l, 1int)])));
    } else {
        lemma_drop_facts(t);
        lemma_attr_add_absent(t.drop_first(), a, l);
        lemma_acons_drop(t[0], attr_add(t.drop_first(), a, l));
        assert(attr_add(t, a, l) =~= t.push((a, seq![(l, 1int)])));
    }
}

/// The mathematical table that the stored vectors stand for.
pub open spec fn attrs_view(v: Seq<(String, Vec<(String, u64)>)>) -> AttrSeq {
    v.map_values(|p: (String, Vec<(String, u64)>)| (p.0@, pairs_view(p.1@)))
}

/// Records, per attribute value, how many times it was seen under each label.
pub struct Attributes {
    attributes: Vec<(String, Vec<(String, u64)>)>,
}

impl View for Attributes {
    type V = AttrSeq;

    closed spec fn view(&self) -> AttrSeq {
        attrs_view(self.attributes@)
    }
}

impl Attributes {
    pub open spec fn wf(&self) -> bool {
        attr_wf(self@)
    }

    pub fn new() -> (r: Attributes)
        ensures
            r.wf(),
            r@ == Seq::<(Seq<char>, CountSeq)>::empty(),
    {
        let r = Attributes { attributes: Vec::new() };
        proof {
            assert(r@ =~= Seq::<(Seq<char>, CountSeq)>::empty());
        }
        r
    }

    /// The index of the first row for `a`, if the attribute was ever seen.
    fn find_attr(&self, a: &String) -> (r: Option<usize>)
        ensures
            match r {
                Some(i) => {
                    &&& i < self@.len()
                    &&& self@[i as int].0 == a@
                    &&& forall|j: int| 0 <= j < i ==> self@[j].0 != a@
                },
                None => forall|j: int| 0 <= j < self@.len() ==> self@[j].0 != a@,
            },
    {
        let mut i: usize = 0;
        while i < self.attributes.len()
            invariant
                i <= self.attributes@.len(),
                forall|j: int| 0 <= j < i ==> attrs_view(self.attributes@)[j].0 != a@,
            decreases self.attributes@.len() - i,
        {
            if self.attributes[i].0 == *a {
                return Some(i);
            }
            i += 1;
        }
        None
    }

    /// Records attribute `attribute` as seen under `label` once more.
    pub fn add(&mut self, attribute: &str, label: &str)
        requires
            old(self).wf(),
            attr_total(old(self)@) < u64::MAX,
        ensures
            final(self).wf(),
            final(self)@ == attr_add(old(self)@, attribute@, label@),
            attr_total(final(self)@) == attr_total(old(self)@) + 1,
            attr_count(final(self)@, attribute@, label@) == attr_count(
                old(self)@,
                attribute@,
                label@,
            ) + 1,
            forall|b: Seq<char>, m: Seq<char>| b != attribute@ || m != label@ ==> attr_count(
                final(self)@,
                b,
                m,
            ) == attr_count(old(self)@, b, m),
            forall|b: Seq<char>| attr_has(final(self)@, b) == (attr_has(old(self)@, b) || b
                == attribute@),
    {
        let ghost t = self@;
        proof {
            lemma_attr_add_wf(t, attribute@, label@);
            lemma_attr_add_total(t, attribute@, label@);
            assert forall|b: Seq<char>, m: Seq<char>| b != attribute@ || m != label@ implies
                attr_count(attr_add(t, attribute@, label@), b, m) == attr_count(t, b, m) by {
                lemma_attr_add_row(t, attribute@, label@, b);
                if b == attribute@ {
                    lemma_bump_frame(row_of(t, b), label@, m);
                }
            }
            assert(attr_count(attr_add(t, attribute@, label@), attribute@, label@) == attr_count(
                t,
                attribute@,
                label@,
            ) + 1) by {
                lemma_attr_add_row(t, attribute@, label@, attribute@);
                lemma_bump_count(row_of(t, attribute@), label@);
            }
            assert forall|b: Seq<char>| attr_has(attr_add(t, attribute@, label@), b) == (attr_has(
                t,
                b,
            ) || b == attribute@) by {
                lemma_attr_add_row(t, attribute@, label@, b);
            }
        }
        let akey: String = attribute.to_owned();
        let lkey: String = label.to_owned();
        match self.find_attr(&akey) {
            Some(i) => {
                proof {
                    lemma_attr_first_match(t, attribute@, label@, i as int);
                    lemma_row_le_total(t, attribute@);
                    lemma_count_bounds(row_of(t, attribute@), label@);
                }
                let ghost inner = pairs_view(self.attributes@[i as int].1@);
                bump_entry(&mut self.attributes[i].1, &lkey);
                proof {
                    assert(self@ =~= t.update(i as int, (attribute@, bump(inner, label@))));
                }
            },
            None => {
                let mut row: Vec<(String, u64)> = Vec::new();
                row.push((lkey, 1));
                self.attributes.push((akey, row));
                proof {
                    lemma_attr_add_absent(t, attribute@, label@);
                    assert(pairs_view(self.attributes@[t.len() as int].1@) =~= seq![
                        (label@, 1int),
                    ]);
                    assert(self@ =~= t.push((attribute@, seq![(label@, 1int)])));
                }
            },
        }
        proof {
            let f = self@;
            assert(f == attr_add(t, attribute@, label@));
            assert forall|b: Seq<char>| attr_has(f, b) == (attr_has(t, b) || b == attribute@) by {
                lemma_attr_add_row(t, attribute@, label@, b);
            }
        }
    }

    /// Looks the pair up. The flag says whether the attribute was ever seen
    /// at all; the count distinguishes "seen, but never under this label"
    /// (`None`) from "seen under this label that often" (`Some`).
    pub fn get_frequency(&self, attribute: &str, label: &str) -> (r: (Option<u64>, bool))
        requires
            self.wf(),
        ensures
            r.1 == attr_has(self@, attribute@),
            match r.0 {
                Some(c) => attr_has(self@, attribute@) && c as int == attr_count(
                    self@,
                    attribute@,
                    label@,
                ) && c > 0,
                None => attr_count(self@, attribute@, label@) == 0,
            },
    {
        let akey: String = attribute.to_owned();
        let lkey: String = label.to_owned();
        match self.find_attr(&akey) {
            Some(i) => {
                proof {
                    lemma_attr_first_match(self@, attribute@, label@, i as int);
                }
                match get_entry(&self.attributes[i].1, &lkey) {
                    Some(c) => {
                        proof {
                            assert(counts_wf(self@[i as int].1));
                            lemma_count_bounds(row_of(self@, attribute@), label@);
                        }
                        (Some(c), true)
                    },
                    None => (None, true),
                }
            },
            None => {
                proof {
                    if attr_has(self@, attribute@) {
                        let j = choose|j: int| 0 <= j < self@.len() && self@[j].0 == attribute@;
                        assert(self@[j].0 != attribute@);
                    }
                    lemma_attr_absent(self@, attribute@);
                }
                (None, false)
            },
        }
    }
}

} // verus!
