use vstd::prelude::*;

use crate::attributes::attr_count;
use crate::attributes::attr_has;
use crate::attributes::attr_total;
use crate::bignat::ge_products;
use crate::bignat::lemma_prod_push;
use crate::bignat::prod_seq;
use crate::counts::count_of;
use crate::counts::counts_has;
use crate::counts::keys_of;
use crate::counts::sum_of;
use crate::model::empty_model;
use crate::model::model_train;
use crate::model::Model;
use crate::model::ModelView;

verus! {

/// An exact probability: a ratio of two machine words. Priors and attribute
/// probabilities are ratios of recorded counts, so no rounding enters them.
#[derive(Clone, Copy, PartialEq, Eq, Structural, Debug)]
pub struct Probability {
    pub num: u64,
    pub den: u64,
}

/// Classification was requested of a model with zero training documents: no
/// label has a defined prior.
#[derive(Clone, Copy, PartialEq, Eq, Structural, Debug)]
pub enum ClassifyError {
    UndefinedPrior,
}

/// The mathematical state of a classifier: its model and its smoothing floor.
pub struct NbView {
    pub model: ModelView,
    pub min: Probability,
}

/// The per-attribute factor a label's score gains from one attribute: nothing
/// for an attribute never seen in training, the attribute's frequency under
/// the label over the label's document count when they co-occurred, and the
/// smoothing floor for an attribute known to the vocabulary but never seen
/// under this label.
pub open spec fn factor_num(v: NbView, a: Seq<char>, l: Seq<char>) -> int {
    if !attr_has(v.model.attributes, a) {
        1
    } else if attr_count(v.model.attributes, a, l) != 0 {
        attr_count(v.model.attributes, a, l)
    } else {
        v.min.num as int
    }
}

pub open spec fn factor_den(v: NbView, a: Seq<char>, l: Seq<char>) -> int {
    if !attr_has(v.model.attributes, a) {
        1
    } else if attr_count(v.model.attributes, a, l) != 0 {
        count_of(v.model.labels, l)
    } else {
        v.min.den as int
    }
}

/// The product of the per-attribute factors over a document; one for the
/// empty document.
pub open spec fn evidence_num(v: NbView, attrs: Seq<Seq<char>>, l: Seq<char>) -> int
    decreases attrs.len(),
{
    if attrs.len() == 0 {
        1
    } else {
        factor_num(v, attrs[0], l) * evidence_num(v, attrs.drop_first(), l)
    }
}

pub open spec fn evidence_den(v: NbView, attrs: Seq<Seq<char>>, l: Seq<char>) -> int
    decreases attrs.len(),
{
    if attrs.len() == 0 {
        1
    } else {
        factor_den(v, attrs[0], l) * evidence_den(v, attrs.drop_first(), l)
    }
}

/// A label's score is its prior times the evidence product: both sides of the
/// exact ratio.
pub open spec fn score_num(v: NbView, attrs: Seq<Seq<char>>, l: Seq<char>) -> int {
    count_of(v.model.labels, l) * evidence_num(v, attrs, l)
}

pub open spec fn score_den(v: NbView, attrs: Seq<Seq<char>>, l: Seq<char>) -> int {
    sum_of(v.model.labels) * evidence_den(v, attrs, l)
}

/// Whether the score of `l1` is at least the score of `l2`, compared by
/// cross-multiplication. All denominators are positive products of label
/// document counts, the document total and the smoothing floor's denominator,
/// so this is the comparison of the two exact scores.
pub open spec fn score_at_least(v: NbView, attrs: Seq<Seq<char>>, l1: Seq<char>, l2: Seq<char>) -> bool {
    score_num(v, attrs, l1) * score_den(v, attrs, l2) >= score_num(v, attrs, l2) * score_den(
        v,
        attrs,
        l1,
    )
}

/// Folds the remaining labels over a running best: a label whose score is at
/// least the running best's replaces it, so among tied labels the one that
/// comes last in first-trained order wins.
pub open spec fn best_from(v: NbView, attrs: Seq<Seq<char>>, ls: Seq<Seq<char>>, cur: Seq<char>) -> Seq<char>
    decreases ls.len(),
{
    if ls.len() == 0 {
        cur
    } else {
        best_from(
            v,
            attrs,
            ls.drop_first(),
            if score_at_least(v, attrs, ls[0], cur) {
                ls[0]
            } else {
                cur
            },
        )
    }
}

/// The label that classification returns: the best-scoring label over the
/// label set in first-trained order, ties going to the later label.
pub open spec fn spec_classify(v: NbView, attrs: Seq<Seq<char>>) -> Seq<char> {
    best_from(v, attrs, keys_of(v.model.labels).drop_first(), keys_of(v.model.labels)[0])
}

/// Classification is deterministic: the label is a function of the model and
/// the document alone, so classifying the same input twice against an
/// unmodified model yields the same label both times.
pub proof fn lemma_classify_deterministic(
    v: NbView,
    attrs: Seq<Seq<char>>,
    r1: Seq<char>,
    r2: Seq<char>,
)
    requires
        r1 == spec_classify(v, attrs),
        r2 == spec_classify(v, attrs),
    ensures
        r1 == r2,
{
}

proof fn lemma_evidence_push(v: NbView, s: Seq<Seq<char>>, x: Seq<char>, l: Seq<char>)
    ensures
        evidence_num(v, s.push(x), l) == evidence_num(v, s, l) * factor_num(v, x, l),
        evidence_den(v, s.push(x), l) == evidence_den(v, s, l) * factor_den(v, x, l),
    decreases s.len(),
{
    if s.len() == 0 {
        assert(s.push(x).drop_first() =~= Seq::<Seq<char>>::empty());
        assert(evidence_num(v, s.push(x).drop_first(), l) == 1);
        assert(evidence_den(v, s.push(x).drop_first(), l) == 1);
        assert(s.push(x)[0] == x);
        assert(evidence_num(v, s.push(x), l) == factor_num(v, x, l) * 1);
        assert(evidence_den(v, s.push(x), l) == factor_den(v, x, l) * 1);
        assert(factor_num(v, x, l) * 1 == 1 * factor_num(v, x, l)) by (nonlinear_arith);
        assert(factor_den(v, x, l) * 1 == 1 * factor_den(v, x, l)) by (nonlinear_arith);
    } else {
        assert(s.push(x).drop_first() =~= s.drop_first().push(x));
        lemma_evidence_push(v, s.drop_first(), x, l);
        assert(s.push(x)[0] == s[0]);
        let f0n = factor_num(v, s[0], l);
        let f0d = factor_den(v, s[0], l);
        let en = evidence_num(v, s.drop_first(), l);
        let ed = evidence_den(v, s.drop_first(), l);
        let fxn = factor_num(v, x, l);
        let fxd = factor_den(v, x, l);
        assert(evidence_num(v, s.push(x), l) == f0n * (en * fxn));
        assert(evidence_den(v, s.push(x), l) == f0d * (ed * fxd));
        assert(f0n * (en * fxn) == (f0n * en) * fxn) by (nonlinear_arith);
        assert(f0d * (ed * fxd) == (f0d * ed) * fxd) by (nonlinear_arith);
    }
}

/// The classifier: a model plus the smoothing floor used for an attribute
/// that is in the vocabulary but was never seen under the label being scored.
pub struct NaiveBayes {
    model: Model,
    minimum_probability: Probability,
}

impl View for NaiveBayes {
    type V = NbView;

    closed spec fn view(&self) -> NbView {
        NbView { model: self.model@, min: self.minimum_probability }
    }
}

impl Default for NaiveBayes {
    /// The same classifier `new` builds.
    fn default() -> (r: Self)
        ensures
            r.wf(),
            r@.model == empty_model(),
            r@.min == (Probability { num: 1, den: 1000000000 }),
    {
        NaiveBayes::new()
    }
}

impl NaiveBayes {
    pub closed spec fn wf(&self) -> bool {
        &&& self.model.wf()
        &&& self.minimum_probability.num >= 1
        &&& self.minimum_probability.den >= 1
    }

    /// A fresh classifier with an empty model and a smoothing floor of one
    /// part in a billion.
    pub fn new() -> (r: NaiveBayes)
        ensures
            r.wf(),
            r@.model == empty_model(),
            r@.min == (Probability { num: 1, den: 1000000000 }),
    {
        NaiveBayes {
            model: Model::new(),
            minimum_probability: Probability { num: 1, den: 1_000_000_000 },
        }
    }

    /// Counts one training document: `label` once, and every attribute
    /// occurrence in `data` under `label`.
    pub fn train(&mut self, data: &Vec<String>, label: &str)
        requires
            old(self).wf(),
            sum_of(old(self)@.model.labels) < u64::MAX,
            attr_total(old(self)@.model.attributes) + data@.len() <= u64::MAX,
        ensures
            final(self).wf(),
            final(self)@.model == model_train(old(self)@.model, data.deep_view(), label@),
            final(self)@.min == old(self)@.min,
            sum_of(final(self)@.model.labels) == sum_of(old(self)@.model.labels) + 1,
            attr_total(final(self)@.model.attributes) == attr_total(old(self)@.model.attributes)
                + data@.len(),
    {
        self.model.train(data, label);
    }

    /// The label's prior probability: its document count over the total.
    /// `None` when the label was never trained on or nothing was trained.
    pub fn prior(&self, label: &str) -> (r: Option<Probability>)
        requires
            self.wf(),
        ensures
            match r {
                Some(p) => counts_has(self@.model.labels, label@) && sum_of(self@.model.labels) > 0
                    && p.num as int == count_of(self@.model.labels, label@) && p.den as int
                    == sum_of(self@.model.labels),
                None => !counts_has(self@.model.labels, label@) || sum_of(self@.model.labels) == 0,
            },
    {
        let total = self.model.labels.get_total();
        match self.model.labels.get_count(label) {
            Some(c) => {
                if total > 0 {
                    Some(Probability { num: c, den: total })
                } else {
                    None
                }
            },
            None => None,
        }
    }

    /// The conditional probability estimate for one attribute under one
    /// label: `None` for an attribute never seen in training (it carries no
    /// information and is skipped in scoring); the attribute's frequency under
    /// the label over the label's document count when they co-occurred; and
    /// the smoothing floor for an attribute seen in training but never under
    /// this label.
    pub fn attribute_probability(&self, attribute: &str, label: &str) -> (r: Option<Probability>)
        requires
            self.wf(),
        ensures
            (r is None) <==> !attr_has(self@.model.attributes, attribute@),
            attr_has(self@.model.attributes, attribute@) && attr_count(
                self@.model.attributes,
                attribute@,
                label@,
            ) == 0 ==> r == Some(self@.min),
            attr_has(self@.model.attributes, attribute@) && attr_count(
                self@.model.attributes,
                attribute@,
                label@,
            ) != 0 ==> counts_has(self@.model.labels, label@) && r == Some(
                (Probability {
                    num: attr_count(self@.model.attributes, attribute@, label@) as u64,
                    den: count_of(self@.model.labels, label@) as u64,
                }),
            ),
    {
        match self.model.attributes.get_frequency(attribute, label) {
            (Some(freq), true) => {
                match self.model.labels.get_count(label) {
                    Some(c) => Some(Probability { num: freq, den: c }),
                    None => {
                        proof {
                            assert(false);
                        }
                        None
                    },
                }
            },
            (None, true) => Some(
                Probability {
                    num: self.minimum_probability.num,
                    den: self.minimum_probability.den,
                },
            ),
            (None, false) => None,
            (Some(_), false) => {
                proof {
                    assert(false);
                }
                None
            },
        }
    }

    /// The numerator and denominator factor lists of the label's score on
    /// this document: the prior's ratio, then one factor ratio per scored
    /// attribute.
    fn score_factors(&self, label: &String, data: &Vec<String>) -> (r: (Vec<u64>, Vec<u64>))
        requires
            self.wf(),
            counts_has(self@.model.labels, label@),
        ensures
            prod_seq(r.0@) == score_num(self@, data.deep_view(), label@),
            prod_seq(r.1@) == score_den(self@, data.deep_view(), label@),
    {
        let ghost v = self@;
        let ghost dv = data.deep_view();
        let count: u64 = match self.model.labels.get_count(label.as_str()) {
            Some(c) => c,
            None => {
                proof {
                    assert(false);
                }
                0
            },
        };
        let total: u64 = self.model.labels.get_total();
        let mut nums: Vec<u64> = Vec::new();
        let mut dens: Vec<u64> = Vec::new();
        nums.push(count);
        dens.push(total);
        proof {
            assert(nums@.drop_first() =~= Seq::<u64>::empty());
            assert(dens@.drop_first() =~= Seq::<u64>::empty());
            assert(prod_seq(Seq::<u64>::empty()) == 1);
            assert(nums@[0] == count);
            assert(dens@[0] == total);
            assert(prod_seq(nums@) == count * prod_seq(nums@.drop_first()));
            assert(prod_seq(dens@) == total * prod_seq(dens@.drop_first()));
            assert(dv.take(0) =~= Seq::<Seq<char>>::empty());
            assert(evidence_num(v, dv.take(0), label@) == 1);
            assert(evidence_den(v, dv.take(0), label@) == 1);
        }
        let mut i: usize = 0;
        while i < data.len()
            invariant
                i <= data@.len(),
                self.wf(),
                v == self@,
                dv == data.deep_view(),
                dv.len() == data@.len(),
                counts_has(v.model.labels, label@),
                count as int == count_of(v.model.labels, label@),
                total as int == sum_of(v.model.labels),
                prod_seq(nums@) == count_of(v.model.labels, label@) * evidence_num(
                    v,
                    dv.take(i as int),
                    label@,
                ),
                prod_seq(dens@) == sum_of(v.model.labels) * evidence_den(
                    v,
                    dv.take(i as int),
                    label@,
                ),
            decreases data@.len() - i,
        {
            let ghost nums_before = nums@;
            let ghost dens_before = dens@;
            let ghost a = dv[i as int];
            proof {
                assert(dv[i as int] == data@[i as int]@);
            }
            let (freq, known) = self.model.attributes.get_frequency(
                data[i].as_str(),
                label.as_str(),
            );
            if known {
                match freq {
                    Some(c) => {
                        nums.push(c);
                        dens.push(count);
                        proof {
                            assert(factor_num(v, a, label@) == c as int);
                            assert(factor_den(v, a, label@) == count as int);
                            lemma_prod_push(nums_before, c);
                            lemma_prod_push(dens_before, count);
                        }
                    },
                    None => {
                        let mn = self.minimum_probability.num;
                        let md = self.minimum_probability.den;
                        nums.push(mn);
                        dens.push(md);
                        proof {
                            assert(factor_num(v, a, label@) == mn as int);
                            assert(factor_den(v, a, label@) == md as int);
                            lemma_prod_push(nums_before, mn);
                            lemma_prod_push(dens_before, md);
                        }
                    },
                }
            } else {
                proof {
                    assert(factor_num(v, a, label@) == 1);
                    assert(factor_den(v, a, label@) == 1);
                    assert(prod_seq(nums@) * 1 == prod_seq(nums@)) by (nonlinear_arith);
                    assert(prod_seq(dens@) * 1 == prod_seq(dens@)) by (nonlinear_arith);
                }
            }
            proof {
                assert(dv.take(i + 1) =~= dv.take(i as int).push(a));
                lemma_evidence_push(v, dv.take(i as int), a, label@);
                let lc = count_of(v.model.labels, label@);
                let tt = sum_of(v.model.labels);
                let en = evidence_num(v, dv.take(i as int), label@);
                let ed = evidence_den(v, dv.take(i as int), label@);
                let fn_ = factor_num(v, a, label@);
                let fd_ = factor_den(v, a, label@);
                assert(prod_seq(nums@) == lc * (en * fn_)) by (nonlinear_arith)
                    requires
                        prod_seq(nums@) == (lc * en) * fn_,
                ;
                assert(prod_seq(dens@) == tt * (ed * fd_)) by (nonlinear_arith)
                    requires
                        prod_seq(dens@) == (tt * ed) * fd_,
                ;
            }
            i += 1;
        }
        proof {
            assert(dv.take(i as int) =~= dv);
        }
        (nums, dens)
    }

    /// Classifies a document: scores every label in the label set, in
    /// first-trained order, and keeps each label whose score is at least the
    /// running best. Fails only when nothing was ever trained, so no label
    /// has a defined prior.
    pub fn classify(&self, data: &Vec<String>) -> (r: Result<String, ClassifyError>)
        requires
            self.wf(),
        ensures
            (r is Err) <==> sum_of(self@.model.labels) == 0,
            r is Err ==> r == Err::<String, ClassifyError>(ClassifyError::UndefinedPrior),
            r matches Ok(lbl) ==> lbl@ == spec_classify(self@, data.deep_view()) && counts_has(
                self@.model.labels,
                lbl@,
            ),
    {
        let ghost v = self@;
        let ghost dv = data.deep_view();
        let ghost ks = keys_of(v.model.labels);
        let total = self.model.labels.get_total();
        if total == 0 {
            return Err(ClassifyError::UndefinedPrior);
        }
        proof {
            if v.model.labels.len() == 0 {
                assert(sum_of(v.model.labels) == 0);
            }
            assert(ks.len() == v.model.labels.len());
        }
        let keys: Vec<String> = self.model.labels.get_labels();
        proof {
            assert(keys.deep_view() == ks);
            assert(keys.deep_view().len() == keys@.len());
            assert(keys@[0]@ == ks[0]);
            assert(v.model.labels[0].0 == ks[0]);
            assert(counts_has(v.model.labels, ks[0]));
            assert(ks.drop_first() =~= ks.skip(1));
        }
        let mut best: String = keys[0].clone();
        let sf = self.score_factors(&best, data);
        let mut bnums = sf.0;
        let mut bdens = sf.1;
        let mut i: usize = 1;
        while i < keys.len()
            invariant
                1 <= i <= keys@.len(),
                self.wf(),
                v == self@,
                dv == data.deep_view(),
                ks == keys_of(v.model.labels),
                keys.deep_view() == ks,
                keys@.len() == ks.len(),
                counts_has(v.model.labels, best@),
                prod_seq(bnums@) == score_num(v, dv, best@),
                prod_seq(bdens@) == score_den(v, dv, best@),
                spec_classify(v, dv) == best_from(v, dv, ks.skip(i as int), best@),
            decreases keys@.len() - i,
        {
            proof {
                assert(keys@[i as int]@ == ks[i as int]);
                assert(v.model.labels[i as int].0 == ks[i as int]);
                assert(counts_has(v.model.labels, ks[i as int]));
            }
            let cand: &String = &keys[i];
            let cf = self.score_factors(cand, data);
            let take_it = ge_products(&cf.0, &bdens, &bnums, &cf.1);
            let ghost prev_best = best@;
            proof {
                assert(take_it == score_at_least(v, dv, cand@, prev_best));
                assert(ks.skip(i as int).len() == ks.len() - i);
                assert(ks.skip(i as int)[0] == ks[i as int]);
                assert(ks.skip(i as int).drop_first() =~= ks.skip(i as int + 1));
            }
            if take_it {
                best = cand.clone();
                bnums = cf.0;
                bdens = cf.1;
            }
            proof {
                assert(best@ == if score_at_least(v, dv, ks[i as int], prev_best) {
                    ks[i as int]
                } else {
                    prev_best
                });
                assert(best_from(v, dv, ks.skip(i as int), prev_best) == best_from(
                    v,
                    dv,
                    ks.skip(i as int + 1),
                    best@,
                ));
            }
            i += 1;
        }
        proof {
            assert(ks.skip(i as int) =~= Seq::<Seq<char>>::empty());
        }
        Ok(best)
    }
}

} // verus!
