use vstd::prelude::*;

use crate::counts::{count_in, feature_count, label_occurrences, label_total, CorpusV};
use crate::feature::{FeatureV, LabelV};

verus! {

// ---------------------------------------------------------------------------
// Laws of training, stated over the corpus mathematics that the executable
// functions are specified against.
// ---------------------------------------------------------------------------

/// The likelihood table a corpus determines: for every label that occurs,
/// the features counted under it, each mapped to the exact fraction
/// (count, label total).
pub open spec fn likelihood_table(c: CorpusV) -> Map<LabelV, Map<FeatureV, (nat, nat)>> {
    Map::new(
        |l: LabelV| label_total(c, l) > 0,
        |l: LabelV|
            Map::new(
                |f: FeatureV| feature_count(c, l, f) > 0,
                |f: FeatureV| (feature_count(c, l, f), label_total(c, l)),
            ),
    )
}

/// The sum of `g` over the elements of a sequence.
pub open spec fn sum_over<A>(s: Seq<A>, g: spec_fn(A) -> nat) -> nat
    decreases s.len(),
{
    if s.len() == 0 {
        0
    } else {
        sum_over(s.drop_last(), g) + g(s.last())
    }
}

/// The weight that counts an example once when it bears label `l`.
pub open spec fn label_weight(l: LabelV) -> spec_fn((Seq<FeatureV>, LabelV)) -> nat {
    |e: (Seq<FeatureV>, LabelV)|
        if e.1 == l {
            1nat
        } else {
            0nat
        }
}

/// The weight that counts the occurrences of feature `f` in an example
/// bearing label `l`.
pub open spec fn feature_weight(l: LabelV, f: FeatureV) -> spec_fn((Seq<FeatureV>, LabelV)) -> nat {
    |e: (Seq<FeatureV>, LabelV)|
        if e.1 == l {
            count_in(e.0, f)
        } else {
            0nat
        }
}

proof fn lemma_sum_over_remove<A>(s: Seq<A>, i: int, g: spec_fn(A) -> nat)
    requires
        0 <= i < s.len(),
    ensures
        sum_over(s, g) == sum_over(s.remove(i), g) + g(s[i]),
    decreases s.len(),
{
    if i == s.len() - 1 {
        assert(s.remove(i) =~= s.drop_last());
    } else {
        assert(s.remove(i).drop_last() =~= s.drop_last().remove(i));
        assert(s.remove(i).last() == s.last());
        assert(s.drop_last()[i] == s[i]);
        lemma_sum_over_remove(s.drop_last(), i, g);
    }
}

proof fn lemma_sum_over_permutation<A>(s1: Seq<A>, s2: Seq<A>, g: spec_fn(A) -> nat)
    requires
        s1.to_multiset() == s2.to_multiset(),
    ensures
        sum_over(s1, g) == sum_over(s2, g),
    decreases s1.len(),
{
    broadcast use vstd::seq_lib::group_to_multiset_ensures;

    if s1.len() == 0 {
        assert(s2.to_multiset().len() == 0);
    } else {
        let x = s1.last();
        assert(s1[s1.len() - 1] == x);
        assert(s1.contains(x));
        assert(s2.to_multiset().count(x) > 0);
        assert(s2.contains(x));
        let i = choose|i: int| 0 <= i < s2.len() && s2[i] == x;
        assert(s1.drop_last() =~= s1.remove(s1.len() - 1));
        assert(s1.remove(s1.len() - 1).to_multiset() =~= s1.to_multiset().remove(x));
        assert(s2.remove(i).to_multiset() =~= s2.to_multiset().remove(s2[i]));
        lemma_sum_over_permutation(s1.drop_last(), s2.remove(i), g);
        lemma_sum_over_remove(s2, i, g);
    }
}

proof fn lemma_label_total_is_sum(c: CorpusV, l: LabelV)
    ensures
        label_total(c, l) == sum_over(c, label_weight(l)),
    decreases c.len(),
{
    if c.len() > 0 {
        lemma_label_total_is_sum(c.drop_last(), l);
    }
}

proof fn lemma_feature_count_is_sum(c: CorpusV, l: LabelV, f: FeatureV)
    ensures
        feature_count(c, l, f) == sum_over(c, feature_weight(l, f)),
    decreases c.len(),
{
    if c.len() > 0 {
        lemma_feature_count_is_sum(c.drop_last(), l, f);
    }
}

/// Training is deterministic and order-independent: two corpora holding
/// the same examples, in any order, determine the same label totals, the
/// same feature counts, and therefore the same likelihood table.
pub proof fn lemma_training_order_irrelevant(c1: CorpusV, c2: CorpusV)
    requires
        c1.to_multiset() == c2.to_multiset(),
    ensures
        forall|l: LabelV| #[trigger] label_total(c1, l) == label_total(c2, l),
        forall|l: LabelV, f: FeatureV| #[trigger] feature_count(c1, l, f) == feature_count(
            c2,
            l,
            f,
        ),
        likelihood_table(c1) == likelihood_table(c2),
{
    assert forall|l: LabelV| #[trigger] label_total(c1, l) == label_total(c2, l) by {
        lemma_label_total_is_sum(c1, l);
        lemma_label_total_is_sum(c2, l);
        lemma_sum_over_permutation(c1, c2, label_weight(l));
    }
    assert forall|l: LabelV, f: FeatureV| #[trigger] feature_count(c1, l, f) == feature_count(
        c2,
        l,
        f,
    ) by {
        lemma_feature_count_is_sum(c1, l, f);
        lemma_feature_count_is_sum(c2, l, f);
        lemma_sum_over_permutation(c1, c2, feature_weight(l, f));
    }
    assert(likelihood_table(c1) =~~= likelihood_table(c2));
}

proof fn lemma_count_in_zero(fs: Seq<FeatureV>, f: FeatureV)
    requires
        !fs.contains(f),
    ensures
        count_in(fs, f) == 0,
    decreases fs.len(),
{
    if fs.len() > 0 {
        assert(fs[fs.len() - 1] == fs.last());
        assert(!fs.drop_last().contains(f)) by {
            if fs.drop_last().contains(f) {
                let i = choose|i: int| 0 <= i < fs.len() - 1 && fs.drop_last()[i] == f;
                assert(fs[i] == f);
            }
        }
        lemma_count_in_zero(fs.drop_last(), f);
    }
}

proof fn lemma_count_in_distinct(fs: Seq<FeatureV>, f: FeatureV)
    requires
        fs.no_duplicates(),
    ensures
        count_in(fs, f) <= 1,
    decreases fs.len(),
{
    if fs.len() > 0 {
        assert(fs.drop_last().no_duplicates()) by {
            assert(forall|i: int| 0 <= i < fs.len() - 1 ==> fs.drop_last()[i] == fs[i]);
        }
        lemma_count_in_distinct(fs.drop_last(), f);
        if fs.last() == f {
            assert(!fs.drop_last().contains(f)) by {
                if fs.drop_last().contains(f) {
                    let i = choose|i: int| 0 <= i < fs.len() - 1 && fs.drop_last()[i] == f;
                    assert(fs[i] == fs[fs.len() - 1]);
                }
            }
            lemma_count_in_zero(fs.drop_last(), f);
        }
    }
}

/// Normalization stays in the unit interval: when no example lists the
/// same feature twice, a feature's count under a label never exceeds the
/// label's example total, so every likelihood count / total lies in
/// [0, 1].
pub proof fn lemma_likelihood_unit_range(c: CorpusV, l: LabelV, f: FeatureV)
    requires
        forall|i: int| 0 <= i < c.len() ==> (#[trigger] c[i]).0.no_duplicates(),
    ensures
        feature_count(c, l, f) <= label_total(c, l),
    decreases c.len(),
{
    if c.len() > 0 {
        assert(forall|i: int| 0 <= i < c.len() - 1 ==> c.drop_last()[i] == c[i]);
        lemma_likelihood_unit_range(c.drop_last(), l, f);
        if c.last().1 == l {
            assert(c[c.len() - 1] == c.last());
            lemma_count_in_distinct(c.last().0, f);
        }
    }
}

/// Count conservation: when every example bearing label `l` lists exactly
/// one feature, the feature counts recorded under `l` sum to the label's
/// example total. The per-label sum of the recorded counts is what
/// training exposes as `row_sum`.
pub proof fn lemma_count_conservation(c: CorpusV, l: LabelV)
    requires
        forall|i: int|
            0 <= i < c.len() && (#[trigger] c[i]).1 == l ==> c[i].0.len() == 1,
    ensures
        label_occurrences(c, l) == label_total(c, l),
    decreases c.len(),
{
    if c.len() > 0 {
        assert(forall|i: int| 0 <= i < c.len() - 1 ==> c.drop_last()[i] == c[i]);
        lemma_count_conservation(c.drop_last(), l);
        assert(c[c.len() - 1] == c.last());
    }
}

} // verus!
