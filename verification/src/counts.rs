use vstd::prelude::*;

verus! {

/// A count table: an association list from string keys to how many times each
/// key was recorded. A well-formed table never repeats a key, and every
/// recorded count is at least one; an absent key stands for a count of zero.
pub type CountSeq = Seq<(Seq<char>, int)>;

pub open spec fn counts_wf(s: CountSeq) -> bool {
    &&& forall|i: int, j: int| 0 <= i < j < s.len() ==> s[i].0 != s[j].0
    &&& forall|i: int| 0 <= i < s.len() ==> s[i].1 >= 1
}

pub open spec fn counts_has(s: CountSeq, key: Seq<char>) -> bool {
    exists|i: int| 0 <= i < s.len() && s[i].0 == key
}

/// The count recorded for `key`, or zero when the key is absent.
pub open spec fn count_of(s: CountSeq, key: Seq<char>) -> int
    decreases s.len(),
{
    if s.len() == 0 {
        0
    } else if s[0].0 == key {
        s[0].1
    } else {
        count_of(s.drop_first(), key)
    }
}

/// The sum of all recorded counts.
pub open spec fn sum_of(s: CountSeq) -> int
    decreases s.len(),
{
    if s.len() == 0 {
        0
    } else {
        s[0].1 + sum_of(s.drop_first())
    }
}

/// The keys in the order in which they were first recorded.
pub open spec fn keys_of(s: CountSeq) -> Seq<Seq<char>> {
    s.map_values(|p: (Seq<char>, int)| p.0)
}

/// Recording `key` once more: the first entry for `key` is incremented, or a
/// fresh entry with count one is appended.
pub open spec fn bump(s: CountSeq, key: Seq<char>) -> CountSeq
    decreases s.len(),
{
    if s.len() == 0 {
        seq![(key, 1int)]
    } else if s[0].0 == key {
        seq![(s[0].0, s[0].1 + 1)] + s.drop_first()
    } else {
        seq![s[0]] + bump(s.drop_first(), key)
    }
}

proof fn lemma_cons_drop(x: (Seq<char>, int), t: CountSeq)
    ensures
        (seq![x] + t).len() == t.len() + 1,
        (seq![x] + t)[0] == x,
        (seq![x] + t).drop_first() =~= t,
{
}

pub proof fn lemma_bump_sum(s: CountSeq, key: Seq<char>)
    ensures
        sum_of(bump(s, key)) == sum_of(s) + 1,
    decreases s.len(),
{
    if s.len() == 0 {
        assert(sum_of(seq![(key, 1int)].drop_first()) == 0) by {
            assert(seq![(key, 1int)].drop_first() =~= Seq::<(Seq<char>, int)>::empty());
        }
    } else if s[0].0 == key {
        lemma_cons_drop((s[0].0, s[0].1 + 1), s.drop_first());
    } else {
        lemma_bump_sum(s.drop_first(), key);
        lemma_cons_drop(s[0], bump(s.drop_first(), key));
    }
}

pub proof fn lemma_bump_count(s: CountSeq, key: Seq<char>)
    ensures
        count_of(bump(s, key), key) == count_of(s, key) + 1,
    decreases s.len(),
{
    if s.len() == 0 {
    } else if s[0].0 == key {
        lemma_cons_drop((s[0].0, s[0].1 + 1), s.drop_first());
    } else {
        lemma_bump_count(s.drop_first(), key);
        lemma_cons_drop(s[0], bump(s.drop_first(), key));
    }
}

pub proof fn lemma_bump_frame(s: CountSeq, key: Seq<char>, other: Seq<char>)
    requires
        other != key,
    ensures
        count_of(bump(s, key), other) == count_of(s, other),
        counts_has(bump(s, key), other) == counts_has(s, other),
    decreases s.len(),
{
    if s.len() == 0 {
        let b = seq![(key, 1int)];
        assert(!counts_has(b, other)) by {
            assert(forall|i: int| 0 <= i < b.len() ==> b[i].0 == key);
        }
        assert(b.drop_first() =~= Seq::<(Seq<char>, int)>::empty());
        assert(count_of(b.drop_first(), other) == 0);
        assert(count_of(b, other) == count_of(b.drop_first(), other));
    } else if s[0].0 == key {
        let b = seq![(s[0].0, s[0].1 + 1)] + s.drop_first();
        lemma_cons_drop((s[0].0, s[0].1 + 1), s.drop_first());
        assert(counts_has(b, other) == counts_has(s, other)) by {
            if counts_has(b, other) {
                let i = choose|i: int| 0 <= i < b.len() && b[i].0 == other;
                assert(s[i].0 == other);
            }
            if counts_has(s, other) {
                let i = choose|i: int| 0 <= i < s.len() && s[i].0 == other;
                assert(b[i].0 == other);
            }
        }
    } else {
        lemma_bump_frame(s.drop_first(), key, other);
        let b = seq![s[0]] + bump(s.drop_first(), key);
        lemma_cons_drop(s[0], bump(s.drop_first(), key));
        assert(counts_has(b, other) == counts_has(s, other)) by {
            if counts_has(b, other) {
                let i = choose|i: int| 0 <= i < b.len() && b[i].0 == other;
                if i == 0 {
                    assert(s[0].0 == other);
                } else {
                    assert(bump(s.drop_first(), key)[i - 1].0 == other);
                    assert(counts_has(bump(s.drop_first(), key), other));
                    let j = choose|j: int| 0 <= j < s.drop_first().len() && s.drop_first()[j].0 == other;
                    assert(s[j + 1].0 == other);
                }
            }
            if counts_has(s, other) {
                let i = choose|i: int| 0 <= i < s.len() && s[i].0 == other;
                if i == 0 {
                    assert(b[0].0 == other);
                } else {
                    assert(s.drop_first()[i - 1].0 == other);
                    assert(counts_has(s.drop_first(), other));
                    let j = choose|j: int| 0 <= j < bump(s.drop_first(), key).len()
                        && bump(s.drop_first(), key)[j].0 == other;
                    assert(b[j + 1].0 == other);
                }
            }
        }
    }
}

pub proof fn lemma_bump_has(s: CountSeq, key: Seq<char>)
    ensures
        counts_has(bump(s, key), key),
    decreases s.len(),
{
    if s.len() == 0 {
        assert(bump(s, key)[0].0 == key);
    } else if s[0].0 == key {
        assert(bump(s, key)[0].0 == key);
    } else {
        lemma_bump_has(s.drop_first(), key);
        lemma_cons_drop(s[0], bump(s.drop_first(), key));
        let j = choose|j: int| 0 <= j < bump(s.drop_first(), key).len()
            && bump(s.drop_first(), key)[j].0 == key;
        assert(bump(s, key)[j + 1].0 == key);
    }
}

pub proof fn lemma_bump_keys(s: CountSeq, key: Seq<char>)
    ensures
        keys_of(bump(s, key)) == if counts_has(s, key) {
            keys_of(s)
        } else {
            keys_of(s).push(key)
        },
    decreases s.len(),
{
    if s.len() == 0 {
        assert(keys_of(bump(s, key)) =~= keys_of(s).push(key));
    } else if s[0].0 == key {
        assert(counts_has(s, key)) by {
            assert(s[0].0 == key);
        }
        let b = seq![(s[0].0, s[0].1 + 1)] + s.drop_first();
        lemma_cons_drop((s[0].0, s[0].1 + 1), s.drop_first());
        assert forall|i: int| 0 <= i < b.len() implies #[trigger] keys_of(b)[i] == keys_of(s)[i] by {
            if i > 0 {
                assert(b[i] == s.drop_first()[i - 1]);
                assert(s.drop_first()[i - 1] == s[i]);
            }
        }
        assert(keys_of(b) =~= keys_of(s));
    } else {
        lemma_bump_keys(s.drop_first(), key);
        lemma_cons_drop(s[0], bump(s.drop_first(), key));
        assert(counts_has(s, key) == counts_has(s.drop_first(), key)) by {
            if counts_has(s, key) {
                let i = choose|i: int| 0 <= i < s.len() && s[i].0 == key;
                assert(i != 0);
                assert(s.drop_first()[i - 1].0 == key);
            }
            if counts_has(s.drop_first(), key) {
                let j = choose|j: int| 0 <= j < s.drop_first().len() && s.drop_first()[j].0 == key;
                assert(s[j + 1].0 == key);
            }
        }
        let t = bump(s.drop_first(), key);
        let b = seq![s[0]] + t;
        if counts_has(s, key) {
            assert(keys_of(t) == keys_of(s.drop_first()));
            assert forall|i: int| 0 <= i < b.len() implies #[trigger] keys_of(b)[i] == keys_of(
                s,
            )[i] by {
                if i > 0 {
                    assert(b[i] == t[i - 1]);
                    assert(keys_of(t)[i - 1] == t[i - 1].0);
                    assert(keys_of(s.drop_first())[i - 1] == s.drop_first()[i - 1].0);
                    assert(s.drop_first()[i - 1] == s[i]);
                }
            }
            assert(keys_of(b) =~= keys_of(s));
        } else {
            assert(keys_of(t) == keys_of(s.drop_first()).push(key));
            assert forall|i: int| 0 <= i < b.len() implies #[trigger] keys_of(b)[i] == keys_of(
                s,
            ).push(key)[i] by {
                if i > 0 {
                    assert(b[i] == t[i - 1]);
                    assert(keys_of(t)[i - 1] == t[i - 1].0);
                    if i - 1 < s.drop_first().len() {
                        assert(keys_of(s.drop_first())[i - 1] == s.drop_first()[i - 1].0);
                        assert(s.drop_first()[i - 1] == s[i]);
                    }
                }
            }
            assert(keys_of(b) =~= keys_of(s).push(key));
        }
    }
}

pub proof fn lemma_bump_wf(s: CountSeq, key: Seq<char>)
    requires
        counts_wf(s),
    ensures
        counts_wf(bump(s, key)),
    decreases s.len(),
{
    if s.len() == 0 {
    } else if s[0].0 == key {
        let b = seq![(s[0].0, s[0].1 + 1)] + s.drop_first();
        assert forall|i: int, j: int| 0 <= i < j < b.len() implies b[i].0 != b[j].0 by {
            assert(b[i].0 == s[i].0);
            assert(b[j].0 == s[j].0);
        }
        assert forall|i: int| 0 <= i < b.len() implies b[i].1 >= 1 by {
            if i > 0 {
                assert(b[i] == s[i]);
            }
        }
    } else {
        assert(counts_wf(s.drop_first())) by {
            assert(forall|i: int| 0 <= i < s.drop_first().len() ==> s.drop_first()[i] == s[i + 1]);
        }
        lemma_bump_wf(s.drop_first(), key);
        lemma_bump_keys(s.drop_first(), key);
        let t = bump(s.drop_first(), key);
        let b = seq![s[0]] + t;
        lemma_cons_drop(s[0], t);
        assert forall|i: int| 0 <= i < b.len() implies b[i].1 >= 1 by {
            if i > 0 {
                assert(b[i] == t[i - 1]);
            }
        }
        assert forall|i: int, j: int| 0 <= i < j < b.len() implies b[i].0 != b[j].0 by {
            if i == 0 {
                assert(b[j].0 == t[j - 1].0);
                assert(keys_of(t)[j - 1] == t[j - 1].0);
                if counts_has(s.drop_first(), key) {
                    assert(keys_of(t) == keys_of(s.drop_first()));
                    assert(t[j - 1].0 == s.drop_first()[j - 1].0);
                    assert(s[0].0 != s[j].0);
                } else {
                    assert(keys_of(t) == keys_of(s.drop_first()).push(key));
                    assert(t.len() == keys_of(t).len());
                    if j - 1 < s.drop_first().len() {
                        assert(keys_of(s.drop_first())[j - 1] == s.drop_first()[j - 1].0);
                        assert(t[j - 1].0 == s.drop_first()[j - 1].0);
                        assert(s[0].0 != s[j].0);
                    } else {
                        assert(keys_of(t)[j - 1] == keys_of(s.drop_first()).push(key)[j - 1]);
                        assert(t[j - 1].0 == key);
                    }
                }
            } else {
                assert(b[i].0 == t[i - 1].0);
                assert(b[j].0 == t[j - 1].0);
            }
        }
    }
}

/// An absent key counts as zero.
pub proof fn lemma_absent_zero(s: CountSeq, key: Seq<char>)
    requires
        !counts_has(s, key),
    ensures
        count_of(s, key) == 0,
    decreases s.len(),
{
    if s.len() != 0 {
        assert(s[0].0 != key);
        assert(!counts_has(s.drop_first(), key)) by {
            if counts_has(s.drop_first(), key) {
                let j = choose|j: int| 0 <= j < s.drop_first().len() && s.drop_first()[j].0 == key;
                assert(s[j + 1].0 == key);
            }
        }
        lemma_absent_zero(s.drop_first(), key);
    }
}

/// In a well-formed table a present key counts at least one, and no count
/// exceeds the sum of all counts.
pub proof fn lemma_count_bounds(s: CountSeq, key: Seq<char>)
    requires
        counts_wf(s),
    ensures
        0 <= count_of(s, key) <= sum_of(s),
        counts_has(s, key) <==> count_of(s, key) >= 1,
    decreases s.len(),
{
    if s.len() == 0 {
        assert(!counts_has(s, key));
    } else {
        assert(counts_wf(s.drop_first())) by {
            assert(forall|i: int| 0 <= i < s.drop_first().len() ==> s.drop_first()[i] == s[i + 1]);
        }
        lemma_count_bounds(s.drop_first(), key);
        if s[0].0 == key {
            assert(counts_has(s, key)) by {
                assert(s[0].0 == key);
            }
        } else {
            assert(counts_has(s, key) == counts_has(s.drop_first(), key)) by {
                if counts_has(s, key) {
                    let i = choose|i: int| 0 <= i < s.len() && s[i].0 == key;
                    assert(i != 0);
                    assert(s.drop_first()[i - 1].0 == key);
                }
                if counts_has(s.drop_first(), key) {
                    let j = choose|j: int| 0 <= j < s.drop_first().len()
                        && s.drop_first()[j].0 == key;
                    assert(s[j + 1].0 == key);
                }
            }
        }
    }
}

/// When the first entry for `key` stands at index `i`, the recorded count is
/// that entry's count, and a bump rewrites exactly that entry.
pub proof fn lemma_first_match(s: CountSeq, key: Seq<char>, i: int)
    requires
        0 <= i < s.len(),
        s[i].0 == key,
        forall|j: int| 0 <= j < i ==> s[j].0 != key,
    ensures
        count_of(s, key) == s[i].1,
        bump(s, key) == s.update(i, (key, s[i].1 + 1)),
    decreases i,
{
    if i == 0 {
        assert(bump(s, key) =~= s.update(0, (key, s[0].1 + 1)));
    } else {
        assert(s.drop_first()[i - 1].0 == key);
        assert(forall|j: int| 0 <= j < i - 1 ==> s.drop_first()[j] == s[j + 1]);
        lemma_first_match(s.drop_first(), key, i - 1);
        lemma_cons_drop(s[0], bump(s.drop_first(), key));
        assert(bump(s, key) =~= s.update(i, (key, s[i].1 + 1))) by {
            assert(bump(s.drop_first(), key) == s.drop_first().update(i - 1, (key, s[i].1 + 1)));
        }
    }
}

/// Bumping a key that is nowhere in the table appends a fresh entry.
pub proof fn lemma_bump_absent(s: CountSeq, key: Seq<char>)
    requires
        forall|j: int| 0 <= j < s.len() ==> s[j].0 != key,
    ensures
        bump(s, key) == s.push((key, 1int)),
    decreases s.len(),
{
    if s.len() == 0 {
        assert(bump(s, key) =~= s.push((key, 1int)));
    } else {
        assert(forall|j: int| 0 <= j < s.drop_first().len() ==> s.drop_first()[j] == s[j + 1]);
        lemma_bump_absent(s.drop_first(), key);
        lemma_cons_drop(s[0], bump(s.drop_first(), key));
        assert(bump(s, key) =~= s.push((key, 1int)));
    }
}

/// The mathematical table that a vector of key/count pairs stands for.
pub open spec fn pairs_view(v: Seq<(String, u64)>) -> CountSeq {
    v.map_values(|p: (String, u64)| (p.0@, p.1 as int))
}

/// The index of the first entry for `key`, if the key is present.
pub(crate) fn find_key(v: &Vec<(String, u64)>, key: &String) -> (r: Option<usize>)
    ensures
        match r {
            Some(i) => {
                &&& i < v@.len()
                &&& pairs_view(v@)[i as int].0 == key@
                &&& forall|j: int| 0 <= j < i ==> pairs_view(v@)[j].0 != key@
            },
            None => forall|j: int| 0 <= j < v@.len() ==> pairs_view(v@)[j].0 != key@,
        },
{
    let mut i: usize = 0;
    while i < v.len()
        invariant
            i <= v@.len(),
            forall|j: int| 0 <= j < i ==> pairs_view(v@)[j].0 != key@,
        decreases v@.len() - i,
    {
        if v[i].0 == *key {
            return Some(i);
        }
        i += 1;
    }
    None
}

/// Looks a key up; `Some` carries the recorded count of a present key.
pub(crate) fn get_entry(v: &Vec<(String, u64)>, key: &String) -> (r: Option<u64>)
    ensures
        match r {
            Some(c) => counts_has(pairs_view(v@), key@) && c as int == count_of(
                pairs_view(v@),
                key@,
            ),
            None => !counts_has(pairs_view(v@), key@) && count_of(pairs_view(v@), key@) == 0,
        },
{
    match find_key(v, key) {
        Some(i) => {
            proof {
                lemma_first_match(pairs_view(v@), key@, i as int);
            }
            Some(v[i].1)
        },
        None => {
            proof {
                if counts_has(pairs_view(v@), key@) {
                    let j = choose|j: int| 0 <= j < pairs_view(v@).len()
                        && pairs_view(v@)[j].0 == key@;
                    assert(pairs_view(v@)[j].0 != key@);
                }
                lemma_absent_zero(pairs_view(v@), key@);
            }
            None
        },
    }
}

/// Records `key` once more in the vector, as `bump` says.
pub(crate) fn bump_entry(v: &mut Vec<(String, u64)>, key: &String)
    requires
        count_of(pairs_view(old(v)@), key@) < u64::MAX,
    ensures
        pairs_view(final(v)@) == bump(pairs_view(old(v)@), key@),
{
    let ghost s = pairs_view(v@);
    match find_key(v, key) {
        Some(i) => {
            proof {
                lemma_first_match(s, key@, i as int);
            }
            let c = v[i].1;
            v[i].1 = c + 1;
            proof {
                assert(pairs_view(v@) =~= s.update(i as int, (key@, c + 1)));
            }
        },
        None => {
            v.push((key.clone(), 1));
            proof {
                lemma_bump_absent(s, key@);
                assert(pairs_view(v@) =~= s.push((key@, 1int)));
            }
        },
    }
}

} // verus!
