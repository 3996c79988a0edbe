use vstd::prelude::*;

use crate::counts::bump;
use crate::counts::bump_entry;
use crate::counts::count_of;
use crate::counts::counts_has;
use crate::counts::counts_wf;
use crate::counts::get_entry;
use crate::counts::keys_of;
use crate::counts::lemma_bump_count;
use crate::counts::lemma_bump_frame;
use crate::counts::lemma_bump_has;
use crate::counts::lemma_bump_keys;
use crate::counts::lemma_bump_sum;
use crate::counts::lemma_bump_wf;
use crate::counts::lemma_count_bounds;
use crate::counts::pairs_view;
use crate::counts::sum_of;
use crate::counts::CountSeq;

verus! {

/// Counts, per label, how many training documents carried that label, in the
/// order in which the labels were first trained on.
pub struct Labels {
    counts: Vec<(String, u64)>,
    total: u64,
}

impl View for Labels {
    type V = CountSeq;

    closed spec fn view(&self) -> CountSeq {
        pairs_view(self.counts@)
    }
}

impl Labels {
    /// The table never repeats a label, every count is at least one, and the
    /// stored total is the sum of all counts.
    pub closed spec fn wf(&self) -> bool {
        &&& counts_wf(self@)
        &&& self.total as int == sum_of(self@)
    }

    /// Well-formedness talks about the abstract table too.
    pub proof fn lemma_wf(&self)
        requires
            self.wf(),
        ensures
            counts_wf(self@),
            0 <= sum_of(self@) <= u64::MAX,
    {
    }

    pub fn new() -> (r: Labels)
        ensures
            r.wf(),
            r@ == Seq::<(Seq<char>, int)>::empty(),
    {
        let r = Labels { counts: Vec::new(), total: 0 };
        proof {
            assert(r@ =~= Seq::<(Seq<char>, int)>::empty());
        }
        r
    }

    /// Records one more document under `label`.
    pub fn add(&mut self, label: &str)
        requires
            old(self).wf(),
            sum_of(old(self)@) < u64::MAX,
        ensures
            final(self).wf(),
            final(self)@ == bump(old(self)@, label@),
            sum_of(final(self)@) == sum_of(old(self)@) + 1,
            count_of(final(self)@, label@) == count_of(old(self)@, label@) + 1,
            forall|m: Seq<char>| m != label@ ==> count_of(final(self)@, m) == count_of(
                old(self)@,
                m,
            ),
            forall|m: Seq<char>| m != label@ ==> counts_has(final(self)@, m) == counts_has(
                old(self)@,
                m,
            ),
            counts_has(final(self)@, label@),
            keys_of(final(self)@) == if counts_has(old(self)@, label@) {
                keys_of(old(self)@)
            } else {
                keys_of(old(self)@).push(label@)
            },
    {
        proof {
            lemma_count_bounds(self@, label@);
            lemma_bump_sum(self@, label@);
            lemma_bump_count(self@, label@);
            lemma_bump_has(self@, label@);
            lemma_bump_keys(self@, label@);
            lemma_bump_wf(self@, label@);
            assert forall|m: Seq<char>| m != label@ implies count_of(bump(self@, label@), m)
                == count_of(self@, m) && counts_has(bump(self@, label@), m) == counts_has(
                self@,
                m,
            ) by {
                lemma_bump_frame(self@, label@, m);
            }
        }
        let key: String = label.to_owned();
        bump_entry(&mut self.counts, &key);
        self.total = self.total + 1;
    }

    /// The number of documents trained under `label`; `None` when the label
    /// was never trained on.
    pub fn get_count(&self, label: &str) -> (r: Option<u64>)
        ensures
            match r {
                Some(c) => counts_has(self@, label@) && c as int == count_of(self@, label@),
                None => !counts_has(self@, label@) && count_of(self@, label@) == 0,
            },
    {
        let key: String = label.to_owned();
        get_entry(&self.counts, &key)
    }

    /// Every label trained on so far, in first-trained order. This order is
    /// the classifier's iteration order.
    pub fn get_labels(&self) -> (r: Vec<String>)
        ensures
            r.deep_view() == keys_of(self@),
    {
        let mut r: Vec<String> = Vec::new();
        let mut i: usize = 0;
        while i < self.counts.len()
            invariant
                i <= self.counts@.len(),
                r.deep_view() =~= keys_of(pairs_view(self.counts@)).take(i as int),
            decreases self.counts@.len() - i,
        {
            let ghost prev = r.deep_view();
            let ghost old_r = r@;
            r.push(self.counts[i].0.clone());
            proof {
                let ks = keys_of(pairs_view(self.counts@));
                assert(prev.len() == i);
                assert(old_r.len() == i);
                assert(r@ == old_r.push(self.counts@[i as int].0));
                assert(r@.len() == i + 1);
                assert(r.deep_view().len() == r@.len());
                assert forall|j: int| 0 <= j <= i implies #[trigger] r.deep_view()[j] == ks.take(
                    i + 1,
                )[j] by {
                    if j < i {
                        assert(r@[j] == old_r[j]);
                        assert(r.deep_view()[j] == old_r[j]@);
                        assert(prev[j] == old_r[j]@);
                        assert(prev[j] == ks.take(i as int)[j]);
                    } else {
                        assert(r.deep_view()[j] == r@[j]@);
                        assert(r@[j]@ == pairs_view(self.counts@)[j].0);
                    }
                }
                assert(r.deep_view() =~= ks.take(i + 1));
            }
            i += 1;
        }
        proof {
            assert(keys_of(self@).take(self.counts@.len() as int) =~= keys_of(self@));
        }
        r
    }

    /// The total number of training documents over all labels.
    pub fn get_total(&self) -> (r: u64)
        requires
            self.wf(),
        ensures
            r as int == sum_of(self@),
    {
        self.total
    }
}

} // verus!
