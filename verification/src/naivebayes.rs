use vstd::prelude::*;

use crate::bignat::BigNat;
use crate::counts::{
    count_features, distinct_labels, distinct_pairs, feature_count, label_occurrences, label_total,
    lemma_distinct_labels_contains, lemma_distinct_pairs_contains,
    lemma_feature_count_le_occ_label, total_occurrences,
};
use crate::feature::{Feature, FeatureV, Label, LabelV, TrainingExample};
use crate::model::{lemma_row_sum_build, row_sum, Model, ModelError};

verus! {

/// The trainer and classifier.
pub struct NaiveBayes {}

// ---------------------------------------------------------------------------
// Posterior scores, as mathematics. The score of a label is its prior
// times the likelihood of every query feature under it: a feature never
// seen under the label contributes probability zero, so one unseen
// feature zeroes the label's score. Scores are exact fractions, compared
// by cross-multiplication.
// ---------------------------------------------------------------------------

/// `b` raised to the power `e`.
pub open spec fn pow_nat(b: nat, e: nat) -> nat
    decreases e,
{
    if e == 0 {
        1
    } else {
        b * pow_nat(b, (e - 1) as nat)
    }
}

/// The product of the counts the label at position `i` records for the
/// query features; an absent feature contributes 0.
pub open spec fn counts_prod(m: Model, i: int, q: Seq<FeatureV>) -> nat
    decreases q.len(),
{
    if q.len() == 0 {
        1
    } else {
        counts_prod(m, i, q.drop_last()) * m.likelihood_of(i, q.last()).0
    }
}

/// The numerator of the posterior score of the label at position `i`:
/// its example total times the product of the query feature counts.
pub open spec fn score_num(m: Model, i: int, q: Seq<FeatureV>) -> nat {
    m.total_at(i) * counts_prod(m, i, q)
}

/// The denominator of the posterior score: the corpus size (for the
/// prior) times the label total once per query feature.
pub open spec fn score_den(m: Model, i: int, q: Seq<FeatureV>) -> nat {
    m.n_examples_v() * pow_nat(m.total_at(i), q.len())
}

/// The score of label `a` is at most the score of label `b`.
pub open spec fn score_le(m: Model, q: Seq<FeatureV>, a: int, b: int) -> bool {
    score_num(m, a, q) * score_den(m, b, q) <= score_num(m, b, q) * score_den(m, a, q)
}

/// The score of label `a` is strictly below the score of label `b`.
pub open spec fn score_lt(m: Model, q: Seq<FeatureV>, a: int, b: int) -> bool {
    score_num(m, a, q) * score_den(m, b, q) < score_num(m, b, q) * score_den(m, a, q)
}

/// Position `i` carries the classification result: no label scores higher,
/// and every earlier label scores strictly lower (ties go to the label
/// first encountered in training).
pub open spec fn is_best(m: Model, q: Seq<FeatureV>, i: int) -> bool {
    &&& 0 <= i < m.num_labels()
    &&& forall|j: int| 0 <= j < m.num_labels() ==> score_le(m, q, j, i)
    &&& forall|j: int| 0 <= j < i ==> score_lt(m, q, j, i)
}

/// Fraction comparison chains: at most `b` and strictly below `c` gives
/// strictly below `c`.
proof fn lemma_score_trans(an: nat, ad: nat, bn: nat, bd: nat, cn: nat, cd: nat)
    requires
        ad > 0,
        bd > 0,
        cd > 0,
        an * bd <= bn * ad,
        bn * cd < cn * bd,
    ensures
        an * cd < cn * ad,
{
    assert((an * bd) * cd <= (bn * ad) * cd) by (nonlinear_arith)
        requires
            an * bd <= bn * ad,
            cd > 0,
    ;
    assert((bn * cd) * ad < (cn * bd) * ad) by (nonlinear_arith)
        requires
            bn * cd < cn * bd,
            ad > 0,
    ;
    assert((bn * ad) * cd == (bn * cd) * ad) by (nonlinear_arith);
    assert((an * bd) * cd < (cn * bd) * ad) by (nonlinear_arith)
        requires
            (an * bd) * cd <= (bn * ad) * cd,
            (bn * ad) * cd == (bn * cd) * ad,
            (bn * cd) * ad < (cn * bd) * ad,
    ;
    assert((an * cd) * bd == (an * bd) * cd) by (nonlinear_arith);
    assert((cn * ad) * bd == (cn * bd) * ad) by (nonlinear_arith);
    assert(an * cd < cn * ad) by (nonlinear_arith)
        requires
            (an * cd) * bd < (cn * ad) * bd,
            bd > 0,
    ;
}

proof fn lemma_pow_nat_pos(b: nat, e: nat)
    requires
        b >= 1,
    ensures
        pow_nat(b, e) >= 1,
    decreases e,
{
    if e > 0 {
        lemma_pow_nat_pos(b, (e - 1) as nat);
        assert(b * pow_nat(b, (e - 1) as nat) >= 1) by (nonlinear_arith)
            requires
                b >= 1,
                pow_nat(b, (e - 1) as nat) >= 1,
        ;
    }
}

/// A sum of naturals is at least each of its addends.
proof fn lemma_sum_nat_ge(s: Seq<nat>, i: int)
    requires
        0 <= i < s.len(),
    ensures
        crate::model::sum_nat(s) >= s[i],
    decreases s.len(),
{
    if i == s.len() - 1 {
    } else {
        assert(s.drop_last()[i] == s[i]);
        lemma_sum_nat_ge(s.drop_last(), i);
    }
}

/// A well-formed, nonempty model was trained from at least one example.
proof fn lemma_examples_pos(m: Model)
    requires
        m.wf(),
        m.num_labels() > 0,
    ensures
        m.n_examples_v() >= 1,
{
    assert(m.total_at(0) >= 1);
    assert(m.totals_nat()[0] == m.total_at(0));
    lemma_sum_nat_ge(m.totals_nat(), 0);
}

impl NaiveBayes {
    /// The cross product `score_num(i) * score_den(b)` of two labels'
    /// posterior scores, as an exact number.
    fn score_cross(model: &Model, featureset: &Vec<Feature>, i: usize, b: usize) -> (x: BigNat)
        requires
            model.wf(),
            i < model.num_labels(),
            b < model.num_labels(),
        ensures
            x.wf(),
            x@ == score_num(*model, i as int, featureset.deep_view()) * score_den(
                *model,
                b as int,
                featureset.deep_view(),
            ),
    {
        let ghost qv = featureset.deep_view();
        let ti = model.total_u32(i);
        let tb = model.total_u32(b);
        let mut x = BigNat::from_u32(ti);
        proof {
            assert(qv.take(0) =~= Seq::<FeatureV>::empty());
            assert(counts_prod(*model, i as int, qv.take(0)) == 1);
        }
        let mut j: usize = 0;
        while j < featureset.len()
            invariant
                0 <= j <= featureset@.len(),
                qv == featureset.deep_view(),
                qv.len() == featureset@.len(),
                model.wf(),
                i < model.num_labels(),
                ti as nat == model.total_at(i as int),
                x.wf(),
                x@ == model.total_at(i as int) * counts_prod(*model, i as int, qv.take(j as int)),
            decreases featureset@.len() - j,
        {
            let c = model.count_for(i, &featureset[j]);
            proof {
                assert(qv.take(j as int + 1).drop_last() =~= qv.take(j as int));
                assert(qv.take(j as int + 1).last() == qv[j as int]);
                assert(qv[j as int] == featureset@[j as int]@);
            }
            let ghost ox = x@;
            x.mul_u32(c);
            proof {
                let cp = counts_prod(*model, i as int, qv.take(j as int));
                let t = model.total_at(i as int);
                assert(counts_prod(*model, i as int, qv.take(j as int + 1)) == cp * (c as nat));
                assert((t * cp) * (c as nat) == t * (cp * (c as nat))) by (nonlinear_arith);
            }
            j = j + 1;
        }
        proof {
            assert(qv.take(qv.len() as int) =~= qv);
        }
        let n = model.example_count();
        let ghost ox = x@;
        x.mul_u32(n);
        proof {
            let num = score_num(*model, i as int, qv);
            assert(x@ == num * (n as nat));
            assert(pow_nat(model.total_at(b as int), 0nat) == 1);
            assert((n as nat) * 1nat == n as nat);
            assert(x@ == num * (model.n_examples_v() * pow_nat(model.total_at(b as int), 0nat)));
        }
        let mut j2: usize = 0;
        while j2 < featureset.len()
            invariant
                0 <= j2 <= featureset@.len(),
                qv == featureset.deep_view(),
                qv.len() == featureset@.len(),
                model.wf(),
                b < model.num_labels(),
                tb as nat == model.total_at(b as int),
                x.wf(),
                x@ == score_num(*model, i as int, qv) * (model.n_examples_v() * pow_nat(
                    model.total_at(b as int),
                    j2 as nat,
                )),
            decreases featureset@.len() - j2,
        {
            let ghost ox = x@;
            x.mul_u32(tb);
            proof {
                let num = score_num(*model, i as int, qv);
                let ne = model.n_examples_v();
                let t = model.total_at(b as int);
                let p = pow_nat(t, j2 as nat);
                assert(pow_nat(t, (j2 + 1) as nat) == t * p);
                assert((num * (ne * p)) * t == num * (ne * (t * p))) by (nonlinear_arith);
            }
            j2 = j2 + 1;
        }
        x
    }

    /// Does the label at position `i` score strictly higher than the one
    /// at position `b`?
    fn score_gt(model: &Model, featureset: &Vec<Feature>, i: usize, b: usize) -> (r: bool)
        requires
            model.wf(),
            i < model.num_labels(),
            b < model.num_labels(),
        ensures
            r == score_lt(*model, featureset.deep_view(), b as int, i as int),
    {
        let x = Self::score_cross(model, featureset, i, b);
        let y = Self::score_cross(model, featureset, b, i);
        x.gt(&y)
    }

    /// Trains a model from a labeled corpus: counts label and feature
    /// occurrences in one pass, then normalizes each count into the exact
    /// likelihood count / label total.
    pub fn train(corpus: &Vec<TrainingExample>) -> (m: Model)
        requires
            corpus@.len() <= u32::MAX,
            total_occurrences(corpus.deep_view()) <= u32::MAX,
        ensures
            m.wf(),
            m.labels_view() == distinct_labels(corpus.deep_view()),
            m.n_examples_v() == corpus.deep_view().len(),
            forall|i: int|
                0 <= i < m.num_labels() ==> #[trigger] m.total_at(i) == label_total(
                    corpus.deep_view(),
                    m.labels_view()[i],
                ),
            forall|i: int, f: FeatureV|
                0 <= i < m.num_labels() ==> #[trigger] m.likelihood_of(i, f) == (
                feature_count(corpus.deep_view(), m.labels_view()[i], f),
                label_total(corpus.deep_view(), m.labels_view()[i]),
                ),
            forall|f: FeatureV|
                #[trigger] m.features_view().contains(f) <==> exists|l: LabelV|
                    feature_count(corpus.deep_view(), l, f) > 0,
            forall|i: int|
                0 <= i < m.num_labels() ==> row_sum(#[trigger] m.row_view(i)) == label_occurrences(
                    corpus.deep_view(),
                    m.labels_view()[i],
                ),
            corpus.deep_view().len() == 0 ==> m.num_labels() == 0 && m.features_view().len() == 0,
    {
        let ghost cv = corpus.deep_view();
        let (totals, counts) = count_features(corpus);
        let ghost tkv = totals.kv();
        let ghost ckv = counts.kv();
        match Model::from_counts(&totals, &counts) {
            Ok(m) => {
                proof {
                    assert forall|i: int, f: FeatureV| 0 <= i < m.num_labels() implies
                        #[trigger] m.likelihood_of(i, f) == (
                        feature_count(cv, m.labels_view()[i], f),
                        label_total(cv, m.labels_view()[i]),
                    ) by {
                        assert(m.likelihood_of(i, f) == (
                            counts.count_of(m.labels_view()[i], f),
                            totals.total_of(m.labels_view()[i]),
                        ));
                    }
                    assert forall|f: FeatureV| #[trigger] m.features_view().contains(f) implies
                        exists|l: LabelV| feature_count(cv, l, f) > 0 by {
                        let k = choose|k: int| 0 <= k < ckv.len() && (#[trigger] ckv[k]).0.1 == f;
                        let l = ckv[k].0.0;
                        assert(counts.keys()[k] == ckv[k].0);
                        assert(distinct_pairs(cv).contains((l, f)));
                        lemma_distinct_pairs_contains(cv, l, f);
                    }
                    assert forall|f: FeatureV|
                        (exists|l: LabelV|
                            feature_count(cv, l, f) > 0) implies #[trigger] m.features_view()
                        .contains(f) by {
                        let l = choose|l: LabelV| feature_count(cv, l, f) > 0;
                        lemma_distinct_pairs_contains(cv, l, f);
                        assert(counts.keys().contains((l, f)));
                        let k = choose|k: int|
                            0 <= k < counts.keys().len() && counts.keys()[k] == (l, f);
                        assert(ckv[k].0.1 == f);
                    }
                    assert forall|i: int| 0 <= i < m.num_labels() implies row_sum(
                        #[trigger] m.row_view(i),
                    ) == label_occurrences(cv, m.labels_view()[i]) by {
                        assert(m.row_view(i) == crate::model::row_build(
                            ckv,
                            m.labels_view()[i],
                            totals.total_of(m.labels_view()[i]),
                        ));
                        lemma_row_sum_build(
                            ckv,
                            m.labels_view()[i],
                            totals.total_of(m.labels_view()[i]),
                        );
                        assert(counts.sum_for(m.labels_view()[i]) == label_occurrences(
                            cv,
                            m.labels_view()[i],
                        ));
                    }
                    if cv.len() == 0 {
                        assert(distinct_labels(cv).len() == 0);
                        if m.features_view().len() > 0 {
                            assert(m.features_view().contains(m.features_view()[0]));
                        }
                    }
                }
                m
            },
            Err(_) => {
                proof {
                    let k = choose|k: int|
                        0 <= k < ckv.len() && !totals.keys().contains((#[trigger] ckv[k]).0.0);
                    let l = ckv[k].0.0;
                    let f = ckv[k].0.1;
                    assert(counts.keys()[k] == ckv[k].0);
                    assert(distinct_pairs(cv).contains((l, f)));
                    lemma_distinct_pairs_contains(cv, l, f);
                    lemma_feature_count_le_occ_label(cv, l, f);
                    lemma_distinct_labels_contains(cv, l);
                    assert(totals.keys().contains(l));
                    assert(false);
                }
                vstd::pervasive::unreached()
            },
        }
    }

    /// Classifies a feature set against a trained model: returns the label
    /// with the highest posterior score, ties going to the label first
    /// encountered in training. A query feature never seen under a label
    /// contributes probability zero to that label's score, so a feature
    /// absent from the whole model zeroes every score and the first label
    /// wins. Fails with `EmptyModel` when the model has no labels.
    pub fn test(featureset: &Vec<Feature>, model: &Model) -> (r: Result<Label, ModelError>)
        requires
            model.wf(),
        ensures
            match r {
                Ok(lab) => model.num_labels() > 0 && exists|i: int|
                    #[trigger] is_best(*model, featureset.deep_view(), i) && lab@
                        == model.labels_view()[i],
                Err(e) => e == ModelError::EmptyModel && model.num_labels() == 0,
            },
    {
        let ghost qv = featureset.deep_view();
        let n = model.label_count();
        if n == 0 {
            return Err(ModelError::EmptyModel);
        }
        proof {
            lemma_examples_pos(*model);
        }
        let mut best: usize = 0;
        let mut i: usize = 1;
        while i < n
            invariant
                1 <= i <= n,
                n == model.num_labels(),
                model.wf(),
                qv == featureset.deep_view(),
                0 <= best < i,
                model.n_examples_v() >= 1,
                forall|j: int| 0 <= j < i ==> score_le(*model, qv, j, best as int),
                forall|j: int| 0 <= j < best ==> score_lt(*model, qv, j, best as int),
            decreases n - i,
        {
            let better = Self::score_gt(model, featureset, i, best);
            if better {
                proof {
                    assert forall|j: int| 0 <= j < i implies score_lt(*model, qv, j, i as int) by {
                        assert(score_le(*model, qv, j, best as int));
                        assert(score_lt(*model, qv, best as int, i as int));
                        lemma_pow_nat_pos(model.total_at(j), qv.len());
                        lemma_pow_nat_pos(model.total_at(best as int), qv.len());
                        lemma_pow_nat_pos(model.total_at(i as int), qv.len());
                        assert(score_den(*model, j, qv) > 0) by (nonlinear_arith)
                            requires
                                model.n_examples_v() >= 1,
                                pow_nat(model.total_at(j), qv.len()) >= 1,
                                score_den(*model, j, qv) == model.n_examples_v() * pow_nat(
                                    model.total_at(j),
                                    qv.len(),
                                ),
                        ;
                        assert(score_den(*model, best as int, qv) > 0) by (nonlinear_arith)
                            requires
                                model.n_examples_v() >= 1,
                                pow_nat(model.total_at(best as int), qv.len()) >= 1,
                                score_den(*model, best as int, qv) == model.n_examples_v()
                                    * pow_nat(model.total_at(best as int), qv.len()),
                        ;
                        assert(score_den(*model, i as int, qv) > 0) by (nonlinear_arith)
                            requires
                                model.n_examples_v() >= 1,
                                pow_nat(model.total_at(i as int), qv.len()) >= 1,
                                score_den(*model, i as int, qv) == model.n_examples_v() * pow_nat(
                                    model.total_at(i as int),
                                    qv.len(),
                                ),
                        ;
                        lemma_score_trans(
                            score_num(*model, j, qv),
                            score_den(*model, j, qv),
                            score_num(*model, best as int, qv),
                            score_den(*model, best as int, qv),
                            score_num(*model, i as int, qv),
                            score_den(*model, i as int, qv),
                        );
                    }
                }
                best = i;
                proof {
                    assert forall|j: int| 0 <= j <= i implies score_le(
                        *model,
                        qv,
                        j,
                        best as int,
                    ) by {
                        if j < i {
                            assert(score_lt(*model, qv, j, i as int));
                        }
                    }
                }
            } else {
                proof {
                    assert(!score_lt(*model, qv, best as int, i as int));
                    assert(score_le(*model, qv, i as int, best as int));
                }
            }
            i = i + 1;
        }
        let lab = model.label_at(best).clone();
        proof {
            assert(is_best(*model, qv, best as int));
        }
        Ok(lab)
    }
}

} // verus!
