use vstd::prelude::*;

use crate::attributes::attr_add;
use crate::attributes::attr_count;
use crate::attributes::attr_has;
use crate::attributes::attr_total;
use crate::attributes::Attributes;
use crate::counts::bump;
use crate::counts::count_of;
use crate::counts::counts_has;
use crate::counts::keys_of;
use crate::counts::sum_of;
use crate::counts::CountSeq;
use crate::attributes::AttrSeq;
use crate::labels::Labels;

verus! {

/// The mathematical state of a trained model: a label count table and an
/// attribute frequency table.
pub struct ModelView {
    pub labels: CountSeq,
    pub attributes: AttrSeq,
}

pub open spec fn empty_model() -> ModelView {
    ModelView { labels: Seq::empty(), attributes: Seq::empty() }
}

/// One training call: the label gains a document, and every attribute of the
/// document is recorded under the label, duplicates counting separately.
pub open spec fn attr_add_all(t: AttrSeq, attrs: Seq<Seq<char>>, l: Seq<char>) -> AttrSeq
    decreases attrs.len(),
{
    if attrs.len() == 0 {
        t
    } else {
        attr_add_all(attr_add(t, attrs[0], l), attrs.drop_first(), l)
    }
}

pub open spec fn model_train(m: ModelView, attrs: Seq<Seq<char>>, l: Seq<char>) -> ModelView {
    ModelView { labels: bump(m.labels, l), attributes: attr_add_all(m.attributes, attrs, l) }
}

/// A whole training run, document by document.
pub open spec fn train_all(m: ModelView, run: Seq<(Seq<Seq<char>>, Seq<char>)>) -> ModelView
    decreases run.len(),
{
    if run.len() == 0 {
        m
    } else {
        train_all(model_train(m, run[0].0, run[0].1), run.drop_first())
    }
}

/// How often attribute `a` occurs in one document.
pub open spec fn occ_in(doc: Seq<Seq<char>>, a: Seq<char>) -> int
    decreases doc.len(),
{
    if doc.len() == 0 {
        0
    } else {
        (if doc[0] == a {
            1int
        } else {
            0int
        }) + occ_in(doc.drop_first(), a)
    }
}

/// How often the pair `(a, l)` is recorded over a whole training run.
pub open spec fn occurrences(run: Seq<(Seq<Seq<char>>, Seq<char>)>, a: Seq<char>, l: Seq<char>) -> int
    decreases run.len(),
{
    if run.len() == 0 {
        0
    } else {
        (if run[0].1 == l {
            occ_in(run[0].0, a)
        } else {
            0int
        }) + occurrences(run.drop_first(), a, l)
    }
}

/// An occurrence count is never negative.
pub proof fn lemma_occ_in_nonneg(doc: Seq<Seq<char>>, a: Seq<char>)
    ensures
        occ_in(doc, a) >= 0,
    decreases doc.len(),
{
    if doc.len() != 0 {
        lemma_occ_in_nonneg(doc.drop_first(), a);
    }
}

/// One training call records each attribute of the document under the trained
/// label, once per occurrence, and touches no other pair.
pub proof fn lemma_train_call_count(
    t: AttrSeq,
    attrs: Seq<Seq<char>>,
    lbl: Seq<char>,
    a: Seq<char>,
    m: Seq<char>,
)
    ensures
        attr_count(attr_add_all(t, attrs, lbl), a, m) == attr_count(t, a, m) + if m == lbl {
            occ_in(attrs, a)
        } else {
            0int
        },
    decreases attrs.len(),
{
    if attrs.len() != 0 {
        crate::attributes::lemma_attr_add_count(t, attrs[0], lbl, a, m);
        lemma_train_call_count(attr_add(t, attrs[0], lbl), attrs.drop_first(), lbl, a, m);
    }
}

/// A training call never lowers a recorded frequency: frequencies grow
/// monotonically as training proceeds.
pub proof fn lemma_training_monotone(
    m: ModelView,
    attrs: Seq<Seq<char>>,
    lbl: Seq<char>,
    a: Seq<char>,
    l: Seq<char>,
)
    ensures
        attr_count(model_train(m, attrs, lbl).attributes, a, l) >= attr_count(m.attributes, a, l),
{
    lemma_train_call_count(m.attributes, attrs, lbl, a, l);
    lemma_occ_in_nonneg(attrs, a);
}

/// Law: after a whole training run on a fresh model, the total document count
/// equals the number of training calls, whatever each document held.
pub proof fn lemma_training_total(run: Seq<(Seq<Seq<char>>, Seq<char>)>)
    ensures
        sum_of(train_all(empty_model(), run).labels) == run.len(),
{
    lemma_train_all_sum(empty_model(), run);
}

proof fn lemma_train_all_sum(m: ModelView, run: Seq<(Seq<Seq<char>>, Seq<char>)>)
    ensures
        sum_of(train_all(m, run).labels) == sum_of(m.labels) + run.len(),
    decreases run.len(),
{
    if run.len() != 0 {
        crate::counts::lemma_bump_sum(m.labels, run[0].1);
        lemma_train_all_sum(model_train(m, run[0].0, run[0].1), run.drop_first());
    }
}

/// Law: after a whole training run on a fresh model, the recorded frequency of
/// every attribute/label pair equals the number of times that pair was added.
pub proof fn lemma_training_frequency(
    run: Seq<(Seq<Seq<char>>, Seq<char>)>,
    a: Seq<char>,
    l: Seq<char>,
)
    ensures
        attr_count(train_all(empty_model(), run).attributes, a, l) == occurrences(run, a, l),
{
    crate::attributes::lemma_attr_absent(empty_model().attributes, a);
    lemma_train_all_count(empty_model(), run, a, l);
}

proof fn lemma_train_all_count(
    m: ModelView,
    run: Seq<(Seq<Seq<char>>, Seq<char>)>,
    a: Seq<char>,
    l: Seq<char>,
)
    ensures
        attr_count(train_all(m, run).attributes, a, l) == attr_count(m.attributes, a, l)
            + occurrences(run, a, l),
    decreases run.len(),
{
    if run.len() != 0 {
        lemma_train_call_count(m.attributes, run[0].0, run[0].1, a, l);
        lemma_train_all_count(model_train(m, run[0].0, run[0].1), run.drop_first(), a, l);
    }
}

/// Owns the two counting tables; the sole reader and writer of both.
pub struct Model {
    pub labels: Labels,
    pub attributes: Attributes,
}

impl View for Model {
    type V = ModelView;

    open spec fn view(&self) -> ModelView {
        ModelView { labels: self.labels@, attributes: self.attributes@ }
    }
}

impl Model {
    /// Both tables are well formed, and every label that carries an attribute
    /// count was trained on.
    pub open spec fn wf(&self) -> bool {
        &&& self.labels.wf()
        &&& self.attributes.wf()
        &&& forall|a: Seq<char>, l: Seq<char>|
            #[trigger] attr_count(self@.attributes, a, l) != 0 ==> counts_has(self@.labels, l)
    }

    pub fn new() -> (r: Model)
        ensures
            r.wf(),
            r@ == empty_model(),
    {
        let r = Model { labels: Labels::new(), attributes: Attributes::new() };
        proof {
            assert forall|a: Seq<char>, l: Seq<char>|
                #[trigger] attr_count(r@.attributes, a, l) == 0 by {
                crate::attributes::lemma_attr_absent(r@.attributes, a);
            }
        }
        r
    }

    /// Counts one document of attributes `data` under `label`: the label once,
    /// then each attribute occurrence, duplicates counting separately.
    pub fn train(&mut self, data: &Vec<String>, label: &str)
        requires
            old(self).wf(),
            sum_of(old(self)@.labels) < u64::MAX,
            attr_total(old(self)@.attributes) + data@.len() <= u64::MAX,
        ensures
            final(self).wf(),
            final(self)@ == model_train(old(self)@, data.deep_view(), label@),
            sum_of(final(self)@.labels) == sum_of(old(self)@.labels) + 1,
            attr_total(final(self)@.attributes) == attr_total(old(self)@.attributes)
                + data@.len(),
    {
        let ghost m = self@;
        let ghost dv = data.deep_view();
        proof {
            assert(dv.len() == data@.len());
        }
        self.labels.add(label);
        proof {
            assert(dv.skip(0) =~= dv);
        }
        let mut i: usize = 0;
        while i < data.len()
            invariant
                i <= data@.len(),
                dv == data.deep_view(),
                dv.len() == data@.len(),
                self.labels.wf(),
                self.labels@ == bump(m.labels, label@),
                counts_has(self.labels@, label@),
                self.attributes.wf(),
                attr_total(m.attributes) + dv.len() <= u64::MAX,
                attr_total(self.attributes@) == attr_total(m.attributes) + i,
                attr_add_all(m.attributes, dv, label@) == attr_add_all(
                    self.attributes@,
                    dv.skip(i as int),
                    label@,
                ),
                forall|a: Seq<char>, l: Seq<char>|
                    #[trigger] attr_count(self.attributes@, a, l) != 0 ==> counts_has(
                        self.labels@,
                        l,
                    ),
            decreases data@.len() - i,
        {
            let ghost cur = self.attributes@;
            proof {
                assert(dv[i as int] == data@[i as int]@);
                assert(dv.skip(i as int).len() == dv.len() - i);
                assert(dv.skip(i as int)[0] == dv[i as int]);
                assert(dv.skip(i as int).drop_first() =~= dv.skip(i as int + 1));
            }
            self.attributes.add(data[i].as_str(), label);
            i += 1;
        }
        proof {
            assert(dv.skip(dv.len() as int) =~= Seq::<Seq<char>>::empty());
            assert(attr_add_all(m.attributes, dv, label@) == self.attributes@);
            crate::counts::lemma_bump_sum(m.labels, label@);
            assert(self@ == model_train(m, dv, label@));
        }
    }
}

} // verus!
