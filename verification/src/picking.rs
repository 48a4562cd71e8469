//! What filtering a sequence picks.

use vstd::prelude::*;

verus! {

/// What a filter picks from one more element.
pub proof fn lemma_filter_step<A>(s: Seq<A>, i: int, wanted: spec_fn(A) -> bool)
    requires
        0 <= i < s.len(),
    ensures
        s.take(i + 1).filter(wanted) == if wanted(s[i]) {
            s.take(i).filter(wanted).push(s[i])
        } else {
            s.take(i).filter(wanted)
        },
{
    reveal(Seq::filter);
    assert(s.take(i + 1).drop_last() =~= s.take(i));
    assert(s.take(i + 1).last() == s[i]);
}

/// What a filter picks from a prefix comes first in what it picks from the whole.
pub proof fn lemma_filter_prefix<A>(s: Seq<A>, i: int, wanted: spec_fn(A) -> bool)
    requires
        0 <= i <= s.len(),
        s.take(i).filter(wanted).len() > 0,
    ensures
        s.filter(wanted).first() == s.take(i).filter(wanted).first(),
        s.filter(wanted).len() > 0,
    decreases s.len() - i,
{
    if i == s.len() {
        assert(s.take(i) =~= s);
    } else {
        lemma_filter_step(s, i, wanted);
        lemma_filter_prefix(s, i + 1, wanted);
    }
}

/// A filter picks nothing from the empty prefix.
pub proof fn lemma_filter_none<A>(s: Seq<A>, wanted: spec_fn(A) -> bool)
    ensures
        s.take(0).filter(wanted) == Seq::<A>::empty(),
{
    reveal(Seq::filter);
    assert(s.take(0) =~= Seq::empty());
}

/// A filter picks as many elements as there are places that it picks from.
pub proof fn lemma_filter_counts<A>(s: Seq<A>, wanted: spec_fn(A) -> bool, p: spec_fn(int) -> bool)
    requires
        forall|i: int| 0 <= i < s.len() ==> p(i) == wanted(#[trigger] s[i]),
    ensures
        s.filter(wanted).len() == crate::order::count(s.len(), p),
    decreases s.len(),
{
    reveal(Seq::filter);
    crate::order::lemma_count_one_more(s.len(), p);
    if s.len() > 0 {
        let rest = s.drop_last();
        assert forall|i: int| 0 <= i < rest.len() implies p(i) == wanted(#[trigger] rest[i]) by {
            assert(rest[i] == s[i]);
        }
        lemma_filter_counts(rest, wanted, p);
        assert(p(s.len() - 1) == wanted(s[s.len() - 1]));
    }
}

/// Filters that agree on every element of a sequence pick the same.
pub proof fn lemma_filters_agree<A>(s: Seq<A>, p: spec_fn(A) -> bool, q: spec_fn(A) -> bool)
    requires
        forall|i: int| 0 <= i < s.len() ==> p(#[trigger] s[i]) == q(s[i]),
    ensures
        s.filter(p) == s.filter(q),
    decreases s.len(),
{
    reveal(Seq::filter);
    if s.len() > 0 {
        let rest = s.drop_last();
        assert forall|i: int| 0 <= i < rest.len() implies p(#[trigger] rest[i]) == q(rest[i]) by {
            assert(rest[i] == s[i]);
        }
        lemma_filters_agree(rest, p, q);
        assert(p(s[s.len() - 1]) == q(s[s.len() - 1]));
    }
}

/// Filtering what a wider filter has picked picks what filtering the whole picks.
pub proof fn lemma_filter_again<A>(s: Seq<A>, wide: spec_fn(A) -> bool, narrow: spec_fn(A) -> bool)
    requires
        forall|i: int| 0 <= i < s.len() && narrow(#[trigger] s[i]) ==> wide(s[i]),
    ensures
        s.filter(wide).filter(narrow) == s.filter(narrow),
    decreases s.len(),
{
    reveal(Seq::filter);
    if s.len() > 0 {
        let rest = s.drop_last();
        assert forall|i: int| 0 <= i < rest.len() && narrow(#[trigger] rest[i]) implies wide(rest[i]) by {
            assert(rest[i] == s[i]);
        }
        lemma_filter_again(rest, wide, narrow);
        let x = s[s.len() - 1];
        if wide(x) {
            let picked = rest.filter(wide);
            assert(s.filter(wide) == picked.push(x));
            assert(picked.push(x).drop_last() =~= picked);
        } else {
            assert(!narrow(x));
        }
    }
}

/// What a filter picks is in the sequence and is wanted, and what is wanted is picked.
pub proof fn lemma_filter_picks<A>(s: Seq<A>, wanted: spec_fn(A) -> bool)
    ensures
        forall|x: A| #[trigger] s.filter(wanted).contains(x) <==> s.contains(x) && wanted(x),
        s.filter(wanted).len() <= s.len(),
    decreases s.len(),
{
    reveal(Seq::filter);
    if s.len() > 0 {
        let rest = s.drop_last();
        let x = s[s.len() - 1];
        lemma_filter_picks(rest, wanted);
        assert forall|y: A| #[trigger] s.filter(wanted).contains(y) <==> s.contains(y) && wanted(y) by {
            let f = s.filter(wanted);
            if f.contains(y) {
                let k = choose|k: int| 0 <= k < f.len() && f[k] == y;
                if k < rest.filter(wanted).len() {
                    assert(rest.filter(wanted)[k] == y);
                    assert(rest.filter(wanted).contains(y));
                    let m = choose|m: int| 0 <= m < rest.len() && rest[m] == y;
                    assert(s[m] == y);
                } else {
                    assert(s[s.len() - 1] == y);
                }
            }
            if s.contains(y) && wanted(y) {
                let m = choose|m: int| 0 <= m < s.len() && s[m] == y;
                if m < rest.len() {
                    assert(rest[m] == y);
                    assert(rest.contains(y));
                    assert(rest.filter(wanted).contains(y));
                    let k = choose|k: int|
                        0 <= k < rest.filter(wanted).len() && rest.filter(wanted)[k] == y;
                    assert(f[k] == y);
                } else {
                    assert(f[f.len() - 1] == y);
                }
            }
        }
    }
}

} // verus!
