use vstd::prelude::*;

use crate::counts::{
    assoc_keys, assoc_lookup, lemma_assoc_lookup_absent, lemma_assoc_lookup_at,
    lemma_assoc_lookup_push, lemma_push_contains, lemma_sel_sum_prefix, sel_sum, sel_true,
    FeatureCounts, LabelTotals,
};
use crate::feature::{Feature, FeatureV, Label, LabelV};

verus! {

/// An exact conditional probability P(feature | label): the count of the
/// feature's occurrences under the label, over the label's example total.
/// `num / den` always lies in [0, 1] when no example repeats a feature.
#[derive(Clone, Copy)]
pub struct Likelihood {
    pub num: u32,
    pub den: u32,
}

/// The failures the classifier can signal.
#[derive(Clone, Copy, PartialEq, Eq, Debug)]
pub enum ModelError {
    /// A label carried feature counts but no example total. Training
    /// cannot produce this state; it is guarded defensively.
    InvalidState,
    /// Classification was attempted on a model with no labels.
    EmptyModel,
}

/// The trained artifact: the distinct features and labels seen, and for
/// each label its example total and the likelihood of each feature seen
/// under it. Immutable once constructed.
pub struct Model {
    features: Vec<Feature>,
    labels: Vec<Label>,
    label_totals: Vec<u32>,
    n_examples: u32,
    label_likelihoods: Vec<(Label, Vec<(Feature, Likelihood)>)>,
}

// ---------------------------------------------------------------------------
// Mathematical readings of the model's vectors.
// ---------------------------------------------------------------------------

/// The views of a sequence of features.
pub open spec fn feature_views(s: Seq<Feature>) -> Seq<FeatureV> {
    s.map_values(|f: Feature| f@)
}

/// The views of a sequence of u32 values.
pub open spec fn u32s_to_nats(s: Seq<u32>) -> Seq<nat> {
    s.map_values(|t: u32| t as nat)
}

/// The mathematical reading of one likelihood row.
pub open spec fn lik_row_view(s: Seq<(Feature, Likelihood)>) -> Seq<(FeatureV, (nat, nat))> {
    s.map_values(|p: (Feature, Likelihood)| (p.0@, (p.1.num as nat, p.1.den as nat)))
}

/// The sum of a sequence of naturals.
pub open spec fn sum_nat(s: Seq<nat>) -> nat
    decreases s.len(),
{
    if s.len() == 0 {
        0
    } else {
        sum_nat(s.drop_last()) + s.last()
    }
}

/// The likelihood row that normalization builds for label `l` out of the
/// counted (label, feature) pairs `s`, with denominator `den`: the features
/// counted under `l`, in order, each with its count over `den`.
pub open spec fn row_build(s: Seq<((LabelV, FeatureV), nat)>, l: LabelV, den: nat) -> Seq<
    (FeatureV, (nat, nat)),
>
    decreases s.len(),
{
    if s.len() == 0 {
        Seq::empty()
    } else {
        let r = row_build(s.drop_last(), l, den);
        if s.last().0.0 == l {
            r.push((s.last().0.1, (s.last().1, den)))
        } else {
            r
        }
    }
}

/// The sum of the counts a likelihood row records.
pub open spec fn row_sum(r: Seq<(FeatureV, (nat, nat))>) -> nat
    decreases r.len(),
{
    if r.len() == 0 {
        0
    } else {
        row_sum(r.drop_last()) + r.last().1.0
    }
}

/// The counts of the built row sum to the counted total of its label.
pub proof fn lemma_row_sum_build(s: Seq<((LabelV, FeatureV), nat)>, l: LabelV, den: nat)
    ensures
        row_sum(row_build(s, l, den)) == sel_sum(s, crate::counts::sel_label(l)),
    decreases s.len(),
{
    if s.len() > 0 {
        lemma_row_sum_build(s.drop_last(), l, den);
        let r = row_build(s.drop_last(), l, den);
        if s.last().0.0 == l {
            let x = (s.last().0.1, (s.last().1, den));
            assert(r.push(x).drop_last() =~= r);
            assert(r.push(x).last() == x);
            assert(crate::counts::sel_label(l)(s.last().0));
        } else {
            assert(!crate::counts::sel_label(l)(s.last().0));
        }
    }
}

/// A feature appears in the built row exactly when it was counted under `l`.
pub proof fn lemma_row_build_contains(
    s: Seq<((LabelV, FeatureV), nat)>,
    l: LabelV,
    den: nat,
    f: FeatureV,
)
    ensures
        assoc_keys(row_build(s, l, den)).contains(f) <==> assoc_keys(s).contains((l, f)),
    decreases s.len(),
{
    if s.len() == 0 {
        assert(assoc_keys(row_build(s, l, den)) =~= Seq::<FeatureV>::empty());
        assert(assoc_keys(s) =~= Seq::<(LabelV, FeatureV)>::empty());
    } else {
        lemma_row_build_contains(s.drop_last(), l, den, f);
        let r = row_build(s.drop_last(), l, den);
        assert(assoc_keys(s) =~= assoc_keys(s.drop_last()).push(s.last().0));
        lemma_push_contains(assoc_keys(s.drop_last()), s.last().0, (l, f));
        if s.last().0.0 == l {
            let x = (s.last().0.1, (s.last().1, den));
            assert(assoc_keys(r.push(x)) =~= assoc_keys(r).push(s.last().0.1));
            lemma_push_contains(assoc_keys(r), s.last().0.1, f);
            assert((s.last().0 == (l, f)) <==> (s.last().0.1 == f));
        } else {
            assert(s.last().0 != (l, f));
        }
    }
}

/// The built row carries distinct features when the counted pairs are
/// distinct.
pub proof fn lemma_row_build_distinct(s: Seq<((LabelV, FeatureV), nat)>, l: LabelV, den: nat)
    requires
        assoc_keys(s).no_duplicates(),
    ensures
        assoc_keys(row_build(s, l, den)).no_duplicates(),
    decreases s.len(),
{
    if s.len() > 0 {
        assert(assoc_keys(s.drop_last()) =~= assoc_keys(s).drop_last());
        assert(assoc_keys(s.drop_last()).no_duplicates()) by {
            assert(forall|i: int|
                0 <= i < s.len() - 1 ==> assoc_keys(s).drop_last()[i] == assoc_keys(s)[i]);
        }
        lemma_row_build_distinct(s.drop_last(), l, den);
        if s.last().0.0 == l {
            let r = row_build(s.drop_last(), l, den);
            let x = (s.last().0.1, (s.last().1, den));
            lemma_row_build_contains(s.drop_last(), l, den, s.last().0.1);
            assert(!assoc_keys(s.drop_last()).contains(s.last().0)) by {
                if assoc_keys(s.drop_last()).contains(s.last().0) {
                    let i = choose|i: int|
                        0 <= i < assoc_keys(s.drop_last()).len() && assoc_keys(s.drop_last())[i]
                            == s.last().0;
                    assert(assoc_keys(s)[i] == assoc_keys(s)[s.len() - 1]);
                }
            }
            assert(!assoc_keys(r).contains(s.last().0.1));
            assert(assoc_keys(r.push(x)) =~= assoc_keys(r).push(s.last().0.1));
            assert(assoc_keys(r.push(x)).no_duplicates()) by {
                assert(forall|i: int|
                    0 <= i < assoc_keys(r).len() ==> #[trigger] assoc_keys(r)[i]
                        != s.last().0.1);
            }
        }
    }
}

/// Every entry of the built row has a positive count and denominator `den`.
pub proof fn lemma_row_build_values(s: Seq<((LabelV, FeatureV), nat)>, l: LabelV, den: nat)
    requires
        forall|j: int| 0 <= j < s.len() ==> (#[trigger] s[j]).1 >= 1,
    ensures
        forall|j: int|
            0 <= j < row_build(s, l, den).len() ==> (#[trigger] row_build(s, l, den)[j]).1.0 >= 1
                && row_build(s, l, den)[j].1.1 == den,
    decreases s.len(),
{
    if s.len() > 0 {
        assert(forall|j: int| 0 <= j < s.len() - 1 ==> s.drop_last()[j] == s[j]);
        lemma_row_build_values(s.drop_last(), l, den);
        let r = row_build(s.drop_last(), l, den);
        if s.last().0.0 == l {
            let x = (s.last().0.1, (s.last().1, den));
            assert(s[s.len() - 1].1 >= 1);
            assert forall|j: int|
                0 <= j < row_build(s, l, den).len() implies (#[trigger] row_build(s, l, den)[j]).1.0
                >= 1 && row_build(s, l, den)[j].1.1 == den by {
                if j < r.len() {
                    assert(row_build(s, l, den)[j] == r[j]);
                } else {
                    assert(row_build(s, l, den)[j] == x);
                }
            }
        }
    }
}

/// Looking a feature up in the built row yields its counted value over
/// `den`, or 0 over `den` when it was not counted under `l`.
pub proof fn lemma_row_build_lookup(
    s: Seq<((LabelV, FeatureV), nat)>,
    l: LabelV,
    den: nat,
    f: FeatureV,
)
    requires
        assoc_keys(s).no_duplicates(),
    ensures
        assoc_lookup(row_build(s, l, den), f, (0nat, den)) == (assoc_lookup(s, (l, f), 0nat), den),
    decreases s.len(),
{
    if s.len() == 0 {
        assert(assoc_lookup(row_build(s, l, den), f, (0nat, den)) == (0nat, den));
        assert(assoc_lookup(s, (l, f), 0nat) == 0nat);
    } else {
        assert(assoc_keys(s.drop_last()) =~= assoc_keys(s).drop_last());
        assert(assoc_keys(s.drop_last()).no_duplicates()) by {
            assert(forall|i: int|
                0 <= i < s.len() - 1 ==> assoc_keys(s).drop_last()[i] == assoc_keys(s)[i]);
        }
        lemma_row_build_lookup(s.drop_last(), l, den, f);
        assert(!assoc_keys(s.drop_last()).contains(s.last().0)) by {
            if assoc_keys(s.drop_last()).contains(s.last().0) {
                let i = choose|i: int|
                    0 <= i < assoc_keys(s.drop_last()).len() && assoc_keys(s.drop_last())[i]
                        == s.last().0;
                assert(assoc_keys(s)[i] == assoc_keys(s)[s.len() - 1]);
            }
        }
        assert forall|j: int|
            0 <= j < s.len() - 1 implies (#[trigger] s.drop_last()[j]).0 != s.last().0 by {
            assert(assoc_keys(s.drop_last())[j] == s.drop_last()[j].0);
        }
        assert(s =~= s.drop_last().push(s.last()));
        lemma_assoc_lookup_push(s.drop_last(), s.last().0, s.last().1, (l, f), 0nat);
        if s.last().0.0 == l {
            let r = row_build(s.drop_last(), l, den);
            let x = (s.last().0.1, (s.last().1, den));
            lemma_row_build_contains(s.drop_last(), l, den, s.last().0.1);
            assert(!assoc_keys(r).contains(s.last().0.1));
            assert forall|j: int|
                0 <= j < r.len() implies (#[trigger] r[j]).0 != s.last().0.1 by {
                assert(assoc_keys(r)[j] == r[j].0);
            }
            lemma_assoc_lookup_push(r, s.last().0.1, (s.last().1, den), f, (0nat, den));
            assert((f == s.last().0.1) <==> ((l, f) == s.last().0));
        } else {
            assert((l, f) != s.last().0);
        }
    }
}

// ---------------------------------------------------------------------------
// The model's interface.
// ---------------------------------------------------------------------------

impl Model {
    /// The number of trained labels.
    pub closed spec fn num_labels(self) -> nat {
        self.labels@.len()
    }

    /// The trained labels, in order of first occurrence in the corpus.
    pub closed spec fn labels_view(self) -> Seq<LabelV> {
        self.labels@.map_values(|s: Label| s@)
    }

    /// The distinct features seen during training.
    pub closed spec fn features_view(self) -> Seq<FeatureV> {
        feature_views(self.features@)
    }

    /// The example total of the label at position `i`.
    pub closed spec fn total_at(self, i: int) -> nat {
        self.label_totals@[i] as nat
    }

    /// The number of training examples the model was built from.
    pub closed spec fn n_examples_v(self) -> nat {
        self.n_examples as nat
    }

    /// The likelihood row of the label at position `i`.
    pub closed spec fn row_view(self, i: int) -> Seq<(FeatureV, (nat, nat))> {
        lik_row_view(self.label_likelihoods@[i].1@)
    }

    /// The example totals, as naturals.
    pub closed spec fn totals_nat(self) -> Seq<nat> {
        u32s_to_nats(self.label_totals@)
    }

    /// The internal vectors agree in length and keys.
    pub closed spec fn rows_match_labels(self) -> bool {
        &&& self.label_likelihoods@.len() == self.labels@.len()
        &&& self.label_totals@.len() == self.labels@.len()
        &&& forall|i: int|
            0 <= i < self.labels@.len() ==> (#[trigger] self.label_likelihoods@[i]).0@
                == self.labels@[i]@
    }

    /// The likelihood recorded for feature `f` under the label at position
    /// `i`, as the exact fraction (count, total). A feature that was never
    /// seen under the label has count 0.
    pub open spec fn likelihood_of(self, i: int, f: FeatureV) -> (nat, nat) {
        assoc_lookup(self.row_view(i), f, (0nat, self.total_at(i)))
    }

    /// Well-formedness: what training establishes and every method
    /// preserves.
    pub open spec fn wf(self) -> bool {
        &&& self.rows_match_labels()
        &&& self.labels_view().no_duplicates()
        &&& self.labels_view().len() == self.num_labels()
        &&& forall|i: int| 0 <= i < self.num_labels() ==> #[trigger] self.total_at(i) >= 1
        &&& forall|i: int|
            0 <= i < self.num_labels() ==> assoc_keys(#[trigger] self.row_view(i)).no_duplicates()
        &&& forall|i: int, j: int|
            0 <= i < self.num_labels() && 0 <= j < self.row_view(i).len() ==> (
            #[trigger] self.row_view(i)[j]).1.0 >= 1 && self.row_view(i)[j].1.1 == self.total_at(
                i,
            )
        &&& self.n_examples_v() == sum_nat(self.totals_nat())
        &&& self.totals_nat().len() == self.num_labels()
        &&& forall|i: int|
            0 <= i < self.num_labels() ==> #[trigger] self.totals_nat()[i] == self.total_at(i)
        &&& self.features_view().no_duplicates()
        &&& forall|f: FeatureV|
            #[trigger] self.features_view().contains(f) <==> exists|i: int|
                0 <= i < self.num_labels() && assoc_keys(#[trigger] self.row_view(i)).contains(f)
    }

    /// An empty model: no labels, no features, no likelihoods.
    pub fn new() -> (m: Model)
        ensures
            m.wf(),
            m.num_labels() == 0,
            m.features_view().len() == 0,
            m.n_examples_v() == 0,
    {
        let m = Model {
            features: Vec::new(),
            labels: Vec::new(),
            label_totals: Vec::new(),
            n_examples: 0,
            label_likelihoods: Vec::new(),
        };
        proof {
            assert(m.totals_nat() =~= Seq::<nat>::empty());
            assert(m.labels_view() =~= Seq::<LabelV>::empty());
            assert(m.features_view() =~= Seq::<FeatureV>::empty());
        }
        m
    }

    /// Hands out the likelihood table: for each label, in order, the
    /// features seen under it with their exact likelihoods.
    pub fn get_likelihoods(self) -> (r: Vec<(Label, Vec<(Feature, Likelihood)>)>)
        requires
            self.wf(),
        ensures
            r@.len() == self.num_labels(),
            forall|i: int| 0 <= i < r@.len() ==> (#[trigger] r@[i]).0@ == self.labels_view()[i],
            forall|i: int|
                0 <= i < r@.len() ==> lik_row_view((#[trigger] r@[i]).1@) == self.row_view(i),
    {
        proof {
            assert(forall|i: int|
                0 <= i < self.labels@.len() ==> (#[trigger] self.label_likelihoods@[i]).0@
                    == self.labels_view()[i]);
        }
        self.label_likelihoods
    }

    /// The number of trained labels.
    pub fn label_count(&self) -> (n: usize)
        ensures
            n == self.num_labels(),
    {
        self.labels.len()
    }

    /// The label at position `i`.
    pub fn label_at(&self, i: usize) -> (l: &Label)
        requires
            i < self.num_labels(),
        ensures
            l@ == self.labels_view()[i as int],
    {
        &self.labels[i]
    }

    /// The example total of the label at position `i`.
    pub fn total_u32(&self, i: usize) -> (t: u32)
        requires
            self.wf(),
            i < self.num_labels(),
        ensures
            t as nat == self.total_at(i as int),
    {
        self.label_totals[i]
    }

    /// The number of training examples the model was built from.
    pub fn example_count(&self) -> (n: u32)
        ensures
            n as nat == self.n_examples_v(),
    {
        self.n_examples
    }

    /// The count recorded for feature `f` under the label at position `i`:
    /// the numerator of its likelihood, 0 when the feature was never seen
    /// under that label.
    pub fn count_for(&self, i: usize, f: &Feature) -> (c: u32)
        requires
            self.wf(),
            i < self.num_labels(),
        ensures
            c as nat == self.likelihood_of(i as int, f@).0,
    {
        let row = &self.label_likelihoods[i].1;
        let ghost rv = self.row_view(i as int);
        let mut j: usize = 0;
        while j < row.len()
            invariant
                0 <= j <= row@.len(),
                rv == lik_row_view(row@),
                rv == self.row_view(i as int),
                rv.len() == row@.len(),
                forall|k: int| 0 <= k < j ==> (#[trigger] rv[k]).0 != f@,
            decreases row@.len() - j,
        {
            proof {
                assert(rv[j as int] == (row@[j as int].0@, (
                    row@[j as int].1.num as nat,
                    row@[j as int].1.den as nat,
                )));
            }
            if row[j].0.same_as(f) {
                proof {
                    assert(rv[j as int].0 == f@);
                    lemma_assoc_lookup_at(rv, j as int, f@, (0nat, self.total_at(i as int)));
                    assert(self.likelihood_of(i as int, f@) == rv[j as int].1);
                    assert(rv[j as int].1.0 == row@[j as int].1.num as nat);
                }
                return row[j].1.num;
            }
            j = j + 1;
        }
        proof {
            assert(forall|k: int| 0 <= k < rv.len() ==> (#[trigger] rv[k]).0 != f@);
            lemma_assoc_lookup_absent(rv, f@, (0nat, self.total_at(i as int)));
        }
        0
    }

    /// Normalizes raw counts into a model: each count becomes the exact
    /// fraction count / total of its label. Fails with `InvalidState` when
    /// some counted label has no example total — a state the counter never
    /// produces, guarded defensively.
    pub fn from_counts(totals: &LabelTotals, counts: &FeatureCounts) -> (r: Result<
        Model,
        ModelError,
    >)
        requires
            totals.wf(),
            counts.wf(),
            totals.sum() <= u32::MAX,
        ensures
            match r {
                Ok(m) => {
                    &&& m.wf()
                    &&& m.labels_view() == totals.keys()
                    &&& m.n_examples_v() == totals.sum()
                    &&& forall|i: int|
                        0 <= i < m.num_labels() ==> #[trigger] m.total_at(i) == totals.total_of(
                            m.labels_view()[i],
                        )
                    &&& forall|i: int|
                        0 <= i < m.num_labels() ==> #[trigger] m.row_view(i) == row_build(
                            counts.kv(),
                            m.labels_view()[i],
                            totals.total_of(m.labels_view()[i]),
                        )
                    &&& forall|i: int, f: FeatureV|
                        0 <= i < m.num_labels() ==> #[trigger] m.likelihood_of(i, f) == (
                        counts.count_of(m.labels_view()[i], f),
                        totals.total_of(m.labels_view()[i]),
                        )
                    &&& forall|f: FeatureV|
                        #[trigger] m.features_view().contains(f) <==> exists|k: int|
                            0 <= k < counts.kv().len() && (#[trigger] counts.kv()[k]).0.1 == f
                },
                Err(e) => e == ModelError::InvalidState && exists|k: int|
                    0 <= k < counts.kv().len() && !totals.keys().contains(
                        (#[trigger] counts.kv()[k]).0.0,
                    ),
            },
    {
        let ghost tkv = totals.kv();
        let ghost ckv = counts.kv();
        // Defensive guard: every counted label must carry an example total.
        let mut k: usize = 0;
        while k < counts.len()
            invariant
                0 <= k <= ckv.len(),
                totals.kv() == tkv,
                counts.kv() == ckv,
                totals.wf(),
                counts.wf(),
                forall|k2: int|
                    0 <= k2 < k ==> totals.keys().contains((#[trigger] ckv[k2]).0.0),
            decreases ckv.len() - k,
        {
            let lbl = counts.label_at(k);
            match totals.find(lbl) {
                None => {
                    proof {
                        assert(!totals.keys().contains(ckv[k as int].0.0));
                    }
                    return Err(ModelError::InvalidState);
                },
                Some(idx) => {
                    proof {
                        assert(tkv[idx as int].0 == ckv[k as int].0.0);
                        assert(totals.keys()[idx as int] == tkv[idx as int].0);
                        assert(totals.keys().contains(ckv[k as int].0.0));
                    }
                },
            }
            k = k + 1;
        }
        // The number of training examples: the sum of the label totals.
        let mut n: u32 = 0;
        let mut li: usize = 0;
        while li < totals.len()
            invariant
                0 <= li <= tkv.len(),
                totals.kv() == tkv,
                totals.wf(),
                totals.sum() <= u32::MAX,
                n as nat == sel_sum(tkv.take(li as int), sel_true()),
            decreases tkv.len() - li,
        {
            proof {
                assert(tkv.take(li as int + 1).drop_last() =~= tkv.take(li as int));
                assert(tkv.take(li as int + 1).last() == tkv[li as int]);
                lemma_sel_sum_prefix(tkv, sel_true(), li as int + 1);
            }
            n = n + totals.total_at(li);
            li = li + 1;
        }
        proof {
            assert(tkv.take(tkv.len() as int) =~= tkv);
        }
        // Normalize: one likelihood row per recorded label.
        let mut labels: Vec<Label> = Vec::new();
        let mut label_totals: Vec<u32> = Vec::new();
        let mut rows: Vec<(Label, Vec<(Feature, Likelihood)>)> = Vec::new();
        li = 0;
        while li < totals.len()
            invariant
                0 <= li <= tkv.len(),
                totals.kv() == tkv,
                counts.kv() == ckv,
                totals.wf(),
                counts.wf(),
                labels@.len() == li,
                label_totals@.len() == li,
                rows@.len() == li,
                forall|i: int| 0 <= i < li ==> (#[trigger] labels@[i])@ == tkv[i].0,
                forall|i: int| 0 <= i < li ==> (#[trigger] rows@[i]).0@ == tkv[i].0,
                forall|i: int| 0 <= i < li ==> (#[trigger] label_totals@[i]) as nat == tkv[i].1,
                forall|i: int|
                    0 <= i < li ==> lik_row_view((#[trigger] rows@[i]).1@) == row_build(
                        ckv,
                        tkv[i].0,
                        tkv[i].1,
                    ),
            decreases tkv.len() - li,
        {
            let lbl = totals.label_at(li);
            let tot = totals.total_at(li);
            let mut row: Vec<(Feature, Likelihood)> = Vec::new();
            let mut k: usize = 0;
            while k < counts.len()
                invariant
                    0 <= k <= ckv.len(),
                    0 <= li < tkv.len(),
                    counts.kv() == ckv,
                    counts.wf(),
                    lbl@ == tkv[li as int].0,
                    tot as nat == tkv[li as int].1,
                    lik_row_view(row@) == row_build(ckv.take(k as int), lbl@, tot as nat),
                decreases ckv.len() - k,
            {
                let ghost orow = row@;
                proof {
                    assert(ckv.take(k as int + 1).drop_last() =~= ckv.take(k as int));
                    assert(ckv.take(k as int + 1).last() == ckv[k as int]);
                }
                if *counts.label_at(k) == *lbl {
                    let f = counts.feature_at(k);
                    let c = counts.count_at(k);
                    row.push((f.clone(), Likelihood { num: c, den: tot }));
                    proof {
                        assert(lik_row_view(row@) =~= lik_row_view(orow).push(
                            (f@, (c as nat, tot as nat)),
                        ));
                    }
                } else {
                    proof {
                        assert(ckv[k as int].0.0 != lbl@);
                    }
                }
                k = k + 1;
            }
            proof {
                assert(ckv.take(ckv.len() as int) =~= ckv);
            }
            labels.push(lbl.clone());
            label_totals.push(tot);
            rows.push((lbl.clone(), row));
            li = li + 1;
        }
        // The distinct features seen, across all labels.
        let mut features: Vec<Feature> = Vec::new();
        k = 0;
        while k < counts.len()
            invariant
                0 <= k <= ckv.len(),
                counts.kv() == ckv,
                counts.wf(),
                feature_views(features@).no_duplicates(),
                forall|fv: FeatureV|
                    #[trigger] feature_views(features@).contains(fv) <==> exists|k2: int|
                        0 <= k2 < k && (#[trigger] ckv[k2]).0.1 == fv,
            decreases ckv.len() - k,
        {
            let f = counts.feature_at(k);
            let ghost ofs = features@;
            match find_feature(&features, f) {
                Some(fi) => {
                    proof {
                        assert(feature_views(features@)[fi as int] == f@);
                        assert(feature_views(features@).contains(f@));
                        assert forall|fv: FeatureV|
                            #[trigger] feature_views(features@).contains(fv) <==> exists|k2: int|
                                0 <= k2 < k + 1 && (#[trigger] ckv[k2]).0.1 == fv by {
                            if feature_views(features@).contains(fv) {
                                assert(exists|k2: int|
                                    0 <= k2 < k && (#[trigger] ckv[k2]).0.1 == fv);
                            }
                            if exists|k2: int| 0 <= k2 < k + 1 && (#[trigger] ckv[k2]).0.1 == fv {
                                let k2 = choose|k2: int|
                                    0 <= k2 < k + 1 && (#[trigger] ckv[k2]).0.1 == fv;
                                if k2 == k {
                                    assert(feature_views(features@).contains(f@));
                                }
                            }
                        }
                    }
                },
                None => {
                    features.push(f.clone());
                    proof {
                        assert(feature_views(features@) =~= feature_views(ofs).push(f@));
                        lemma_push_contains(feature_views(ofs), f@, f@);
                        assert(feature_views(features@).no_duplicates()) by {
                            assert(forall|j: int|
                                0 <= j < ofs.len() ==> #[trigger] feature_views(ofs)[j] != f@);
                        }
                        assert forall|fv: FeatureV|
                            #[trigger] feature_views(features@).contains(fv) <==> exists|k2: int|
                                0 <= k2 < k + 1 && (#[trigger] ckv[k2]).0.1 == fv by {
                            lemma_push_contains(feature_views(ofs), f@, fv);
                            if feature_views(features@).contains(fv) {
                                if fv == f@ {
                                    assert(ckv[k as int].0.1 == fv);
                                } else {
                                    assert(exists|k2: int|
                                        0 <= k2 < k && (#[trigger] ckv[k2]).0.1 == fv);
                                }
                            }
                            if exists|k2: int| 0 <= k2 < k + 1 && (#[trigger] ckv[k2]).0.1 == fv {
                                let k2 = choose|k2: int|
                                    0 <= k2 < k + 1 && (#[trigger] ckv[k2]).0.1 == fv;
                                if k2 < k {
                                    assert(feature_views(ofs).contains(fv));
                                }
                            }
                        }
                    }
                },
            }
            k = k + 1;
        }
        let m = Model {
            features,
            labels,
            label_totals,
            n_examples: n,
            label_likelihoods: rows,
        };
        proof {
            assert(m.labels_view() =~= totals.keys()) by {
                assert(forall|i: int|
                    0 <= i < tkv.len() ==> #[trigger] m.labels_view()[i] == tkv[i].0);
                assert(forall|i: int| 0 <= i < tkv.len() ==> #[trigger] totals.keys()[i] == tkv[i].0);
            }
            assert(m.totals_nat().len() == tkv.len() && forall|i: int|
                0 <= i < tkv.len() ==> #[trigger] m.totals_nat()[i] == tkv[i].1);
            lemma_sum_nat_of_values(tkv, m.totals_nat());
            assert(m.n_examples_v() == totals.sum());
            assert forall|i: int| 0 <= i < m.num_labels() implies #[trigger] m.total_at(i)
                == totals.total_of(m.labels_view()[i]) && m.total_at(i) >= 1 by {
                assert forall|j: int| 0 <= j < i implies tkv[j].0 != tkv[i].0 by {
                    assert(totals.keys()[j] == tkv[j].0);
                    assert(totals.keys()[i] == tkv[i].0);
                }
                lemma_assoc_lookup_at(tkv, i, tkv[i].0, 0);
            }
            assert forall|i: int| 0 <= i < m.num_labels() implies #[trigger] m.row_view(i)
                == row_build(ckv, m.labels_view()[i], totals.total_of(m.labels_view()[i])) by {
                assert(m.labels_view()[i] == tkv[i].0);
                assert(m.total_at(i) == totals.total_of(m.labels_view()[i]));
                assert(m.total_at(i) == tkv[i].1);
                assert(lik_row_view(m.label_likelihoods@[i].1@) == row_build(
                    ckv,
                    tkv[i].0,
                    tkv[i].1,
                ));
            }
            assert forall|i: int| 0 <= i < m.num_labels() implies assoc_keys(
                #[trigger] m.row_view(i),
            ).no_duplicates() && (forall|j: int|
                0 <= j < m.row_view(i).len() ==> (#[trigger] m.row_view(i)[j]).1.0 >= 1
                    && m.row_view(i)[j].1.1 == m.total_at(i)) by {
                lemma_row_build_distinct(ckv, tkv[i].0, tkv[i].1);
                lemma_row_build_values(ckv, tkv[i].0, tkv[i].1);
            }
            assert forall|i: int, f: FeatureV| 0 <= i < m.num_labels() implies
                #[trigger] m.likelihood_of(i, f) == (
                counts.count_of(m.labels_view()[i], f),
                totals.total_of(m.labels_view()[i]),
            ) by {
                lemma_row_build_lookup(ckv, tkv[i].0, tkv[i].1, f);
            }
            // The model's feature set matches its rows.
            assert forall|f: FeatureV| #[trigger] m.features_view().contains(f) implies exists|
                i: int,
            |
                0 <= i < m.num_labels() && assoc_keys(#[trigger] m.row_view(i)).contains(f) by {
                let k2 = choose|k2: int| 0 <= k2 < ckv.len() && (#[trigger] ckv[k2]).0.1 == f;
                let l = ckv[k2].0.0;
                assert(totals.keys().contains(l));
                let i = choose|i: int| 0 <= i < totals.keys().len() && totals.keys()[i] == l;
                assert(tkv[i].0 == l);
                lemma_row_build_contains(ckv, l, tkv[i].1, f);
                assert(assoc_keys(ckv).contains((l, f))) by {
                    assert(assoc_keys(ckv)[k2] == (l, f));
                }
                assert(assoc_keys(m.row_view(i)).contains(f));
            }
            assert forall|f: FeatureV|
                (exists|i: int|
                    0 <= i < m.num_labels() && assoc_keys(#[trigger] m.row_view(i)).contains(
                        f,
                    )) implies #[trigger] m.features_view().contains(f) by {
                let i = choose|i: int|
                    0 <= i < m.num_labels() && assoc_keys(#[trigger] m.row_view(i)).contains(f);
                lemma_row_build_contains(ckv, tkv[i].0, tkv[i].1, f);
                let k2 = choose|k2: int|
                    0 <= k2 < assoc_keys(ckv).len() && assoc_keys(ckv)[k2] == (tkv[i].0, f);
                assert(ckv[k2].0.1 == f);
            }
        }
        Ok(m)
    }
}

/// The plain sum of an association sequence's values equals their sum
/// under the all-keeping selector.
proof fn lemma_sum_nat_of_values(s: Seq<(LabelV, nat)>, vals: Seq<nat>)
    requires
        vals.len() == s.len(),
        forall|i: int| 0 <= i < s.len() ==> #[trigger] vals[i] == s[i].1,
    ensures
        sum_nat(vals) == sel_sum(s, sel_true()),
    decreases s.len(),
{
    if s.len() > 0 {
        assert(forall|i: int|
            0 <= i < s.len() - 1 ==> #[trigger] vals.drop_last()[i] == s.drop_last()[i].1);
        lemma_sum_nat_of_values(s.drop_last(), vals.drop_last());
    }
}

fn find_feature(entries: &Vec<Feature>, f: &Feature) -> (r: Option<usize>)
    ensures
        match r {
            Some(i) => i < entries@.len() && entries@[i as int]@ == f@,
            None => !feature_views(entries@).contains(f@),
        },
{
    let mut i: usize = 0;
    while i < entries.len()
        invariant
            0 <= i <= entries@.len(),
            forall|j: int| 0 <= j < i ==> (#[trigger] entries@[j])@ != f@,
        decreases entries@.len() - i,
    {
        if entries[i].same_as(f) {
            return Some(i);
        }
        i = i + 1;
    }
    proof {
        assert forall|j: int|
            0 <= j < feature_views(entries@).len() implies #[trigger] feature_views(entries@)[j]
            != f@ by {
            assert(feature_views(entries@)[j] == entries@[j]@);
        }
    }
    None
}

} // verus!
