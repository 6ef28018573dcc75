use vstd::prelude::*;

use crate::feature::{Feature, FeatureV, Label, LabelV, TrainingExample};

verus! {

/// The mathematical value of one training example.
pub type ExampleV = (Seq<FeatureV>, LabelV);

/// The mathematical value of a training corpus.
pub type CorpusV = Seq<ExampleV>;

// ---------------------------------------------------------------------------
// Counting, as mathematics: how often labels and (feature, label) pairs
// occur in a corpus. These spec functions are the reference that the
// executable counting pass is proved against.
// ---------------------------------------------------------------------------

/// How often feature `f` occurs in the feature sequence `fs`.
pub open spec fn count_in(fs: Seq<FeatureV>, f: FeatureV) -> nat
    decreases fs.len(),
{
    if fs.len() == 0 {
        0
    } else {
        count_in(fs.drop_last(), f) + if fs.last() == f {
            1nat
        } else {
            0nat
        }
    }
}

/// How many examples of corpus `c` bear label `l`.
pub open spec fn label_total(c: CorpusV, l: LabelV) -> nat
    decreases c.len(),
{
    if c.len() == 0 {
        0
    } else {
        label_total(c.drop_last(), l) + if c.last().1 == l {
            1nat
        } else {
            0nat
        }
    }
}

/// How often feature `f` occurs across the examples of corpus `c`
/// that bear label `l`.
pub open spec fn feature_count(c: CorpusV, l: LabelV, f: FeatureV) -> nat
    decreases c.len(),
{
    if c.len() == 0 {
        0
    } else {
        feature_count(c.drop_last(), l, f) + if c.last().1 == l {
            count_in(c.last().0, f)
        } else {
            0nat
        }
    }
}

/// The total number of feature occurrences in corpus `c`, summed over
/// every example with multiplicity.
pub open spec fn total_occurrences(c: CorpusV) -> nat
    decreases c.len(),
{
    if c.len() == 0 {
        0
    } else {
        total_occurrences(c.drop_last()) + c.last().0.len()
    }
}

/// The number of feature occurrences contributed by the examples of
/// corpus `c` that bear label `l`.
pub open spec fn label_occurrences(c: CorpusV, l: LabelV) -> nat
    decreases c.len(),
{
    if c.len() == 0 {
        0
    } else {
        label_occurrences(c.drop_last(), l) + if c.last().1 == l {
            c.last().0.len()
        } else {
            0nat
        }
    }
}

/// The distinct labels of corpus `c`, in order of first occurrence.
pub open spec fn distinct_labels(c: CorpusV) -> Seq<LabelV>
    decreases c.len(),
{
    if c.len() == 0 {
        Seq::empty()
    } else {
        let p = distinct_labels(c.drop_last());
        if p.contains(c.last().1) {
            p
        } else {
            p.push(c.last().1)
        }
    }
}

/// Extends the distinct (label, feature) pair sequence `p` with the pairs
/// `(l, f)` for each feature `f` of `fs`, keeping first-occurrence order.
pub open spec fn merge_pairs(p: Seq<(LabelV, FeatureV)>, l: LabelV, fs: Seq<FeatureV>) -> Seq<
    (LabelV, FeatureV),
>
    decreases fs.len(),
{
    if fs.len() == 0 {
        p
    } else {
        let q = merge_pairs(p, l, fs.drop_last());
        if q.contains((l, fs.last())) {
            q
        } else {
            q.push((l, fs.last()))
        }
    }
}

/// The distinct (label, feature) pairs of corpus `c`, in order of first
/// occurrence.
pub open spec fn distinct_pairs(c: CorpusV) -> Seq<(LabelV, FeatureV)>
    decreases c.len(),
{
    if c.len() == 0 {
        Seq::empty()
    } else {
        merge_pairs(distinct_pairs(c.drop_last()), c.last().1, c.last().0)
    }
}

// ---------------------------------------------------------------------------
// Association sequences: the mathematical reading of the vectors that back
// LabelTotals and FeatureCounts.
// ---------------------------------------------------------------------------

/// First-match lookup in an association sequence, with default `d`.
pub open spec fn assoc_lookup<K, V>(s: Seq<(K, V)>, k: K, d: V) -> V
    decreases s.len(),
{
    if s.len() == 0 {
        d
    } else if s.first().0 == k {
        s.first().1
    } else {
        assoc_lookup(s.drop_first(), k, d)
    }
}

/// The keys of an association sequence.
pub open spec fn assoc_keys<K, V>(s: Seq<(K, V)>) -> Seq<K> {
    s.map_values(|p: (K, V)| p.0)
}

/// The selector that keeps every label.
pub open spec fn sel_true() -> spec_fn(LabelV) -> bool {
    |k: LabelV| true
}

/// The selector that keeps the pairs bearing label `l`.
pub open spec fn sel_label(l: LabelV) -> spec_fn((LabelV, FeatureV)) -> bool {
    |k: (LabelV, FeatureV)| k.0 == l
}

/// The sum of the values of an association sequence whose keys satisfy `sel`.
pub open spec fn sel_sum<K>(s: Seq<(K, nat)>, sel: spec_fn(K) -> bool) -> nat
    decreases s.len(),
{
    if s.len() == 0 {
        0
    } else {
        sel_sum(s.drop_last(), sel) + if sel(s.last().0) {
            s.last().1
        } else {
            0nat
        }
    }
}

pub proof fn lemma_assoc_lookup_update<K, V>(s: Seq<(K, V)>, i: int, v: V, k: K, d: V)
    requires
        0 <= i < s.len(),
        assoc_keys(s).no_duplicates(),
    ensures
        assoc_lookup(s.update(i, (s[i].0, v)), k, d) == if k == s[i].0 {
            v
        } else {
            assoc_lookup(s, k, d)
        },
    decreases s.len(),
{
    let s2 = s.update(i, (s[i].0, v));
    assert(assoc_keys(s)[i] == s[i].0);
    if i == 0 {
        if k != s[0].0 {
            assert(s2.drop_first() =~= s.drop_first());
        }
    } else {
        assert(s2.first() == s.first());
        assert(assoc_keys(s)[0] == s[0].0);
        if k == s[i].0 {
            assert(s[0].0 != s[i].0);
        }
        assert(s2.drop_first() =~= s.drop_first().update(i - 1, (s.drop_first()[i - 1].0, v)));
        assert(assoc_keys(s.drop_first()) =~= assoc_keys(s).drop_first());
        lemma_assoc_lookup_update(s.drop_first(), i - 1, v, k, d);
    }
}

pub proof fn lemma_assoc_lookup_push<K, V>(s: Seq<(K, V)>, k0: K, v: V, k: K, d: V)
    requires
        forall|j: int| 0 <= j < s.len() ==> s[j].0 != k0,
    ensures
        assoc_lookup(s.push((k0, v)), k, d) == if k == k0 {
            v
        } else {
            assoc_lookup(s, k, d)
        },
    decreases s.len(),
{
    let sp = s.push((k0, v));
    assert(sp.len() == s.len() + 1);
    if s.len() == 0 {
        assert(sp.first() == (k0, v));
        if k == k0 {
            assert(assoc_lookup(sp, k, d) == v);
        } else {
            assert(sp.drop_first() =~= Seq::<(K, V)>::empty());
            assert(assoc_lookup(sp.drop_first(), k, d) == d);
            assert(assoc_lookup(sp, k, d) == d);
        }
    } else {
        assert(sp.first() == s.first());
        assert(s[0].0 != k0);
        assert(sp.drop_first() =~= s.drop_first().push((k0, v)));
        assert(forall|j: int|
            0 <= j < s.drop_first().len() ==> s.drop_first()[j] == s[j + 1]);
        lemma_assoc_lookup_push(s.drop_first(), k0, v, k, d);
        if s.first().0 == k {
            assert(assoc_lookup(sp, k, d) == s.first().1);
            assert(assoc_lookup(s, k, d) == s.first().1);
            assert(k != k0);
        } else {
            assert(assoc_lookup(sp, k, d) == assoc_lookup(sp.drop_first(), k, d));
            assert(assoc_lookup(s, k, d) == assoc_lookup(s.drop_first(), k, d));
        }
    }
}

pub proof fn lemma_assoc_lookup_at<K, V>(s: Seq<(K, V)>, i: int, k: K, d: V)
    requires
        0 <= i < s.len(),
        s[i].0 == k,
        forall|j: int| 0 <= j < i ==> s[j].0 != k,
    ensures
        assoc_lookup(s, k, d) == s[i].1,
    decreases s.len(),
{
    if i > 0 {
        lemma_assoc_lookup_at(s.drop_first(), i - 1, k, d);
    }
}

/// What a push adds to the elements of a sequence.
pub proof fn lemma_push_contains<A>(s: Seq<A>, x: A, y: A)
    ensures
        s.push(x).contains(y) <==> (s.contains(y) || x == y),
{
    assert(s.push(x)[s.len() as int] == x);
    assert(forall|i: int| 0 <= i < s.len() ==> s.push(x)[i] == s[i]);
    if s.push(x).contains(y) {
        let i = choose|i: int| 0 <= i < s.push(x).len() && s.push(x)[i] == y;
        if i < s.len() {
            assert(s[i] == y);
        }
    }
    if s.contains(y) {
        let i = choose|i: int| 0 <= i < s.len() && s[i] == y;
        assert(s.push(x)[i] == y);
    }
}

/// Looking up a key that is absent yields the default.
pub proof fn lemma_assoc_lookup_absent<K, V>(s: Seq<(K, V)>, k: K, d: V)
    requires
        forall|j: int| 0 <= j < s.len() ==> (#[trigger] s[j]).0 != k,
    ensures
        assoc_lookup(s, k, d) == d,
    decreases s.len(),
{
    if s.len() > 0 {
        assert(forall|j: int|
            0 <= j < s.drop_first().len() ==> s.drop_first()[j] == s[j + 1]);
        lemma_assoc_lookup_absent(s.drop_first(), k, d);
    }
}

/// A prefix of the selected values sums to no more than the whole.
pub proof fn lemma_sel_sum_prefix<K>(s: Seq<(K, nat)>, sel: spec_fn(K) -> bool, i: int)
    requires
        0 <= i <= s.len(),
    ensures
        sel_sum(s.take(i), sel) <= sel_sum(s, sel),
    decreases s.len() - i,
{
    if i == s.len() {
        assert(s.take(i) =~= s);
    } else {
        assert(s.take(i + 1).drop_last() =~= s.take(i));
        assert(s.take(i + 1).last() == s[i]);
        lemma_sel_sum_prefix(s, sel, i + 1);
    }
}

pub proof fn lemma_sel_sum_update<K>(s: Seq<(K, nat)>, i: int, v: nat, sel: spec_fn(K) -> bool)
    requires
        0 <= i < s.len(),
    ensures
        sel_sum(s.update(i, (s[i].0, v)), sel) + (if sel(s[i].0) {
            s[i].1
        } else {
            0nat
        }) == sel_sum(s, sel) + (if sel(s[i].0) {
            v
        } else {
            0nat
        }),
    decreases s.len(),
{
    let s2 = s.update(i, (s[i].0, v));
    if i == s.len() - 1 {
        assert(s2.drop_last() =~= s.drop_last());
        assert(s2.last() == (s[i].0, v));
    } else {
        assert(s2.drop_last() =~= s.drop_last().update(i, (s.drop_last()[i].0, v)));
        assert(s2.last() == s.last());
        lemma_sel_sum_update(s.drop_last(), i, v, sel);
    }
}

// ---------------------------------------------------------------------------
// Bounds used to rule out counter overflow.
// ---------------------------------------------------------------------------

pub proof fn lemma_label_total_le_len(c: CorpusV, l: LabelV)
    ensures
        label_total(c, l) <= c.len(),
    decreases c.len(),
{
    if c.len() > 0 {
        lemma_label_total_le_len(c.drop_last(), l);
    }
}

pub proof fn lemma_count_in_le_len(fs: Seq<FeatureV>, f: FeatureV)
    ensures
        count_in(fs, f) <= fs.len(),
    decreases fs.len(),
{
    if fs.len() > 0 {
        lemma_count_in_le_len(fs.drop_last(), f);
    }
}

pub proof fn lemma_feature_count_le_occurrences(c: CorpusV, l: LabelV, f: FeatureV)
    ensures
        feature_count(c, l, f) <= total_occurrences(c),
    decreases c.len(),
{
    if c.len() > 0 {
        lemma_feature_count_le_occurrences(c.drop_last(), l, f);
        lemma_count_in_le_len(c.last().0, f);
    }
}

pub proof fn lemma_total_occurrences_prefix(c: CorpusV, i: int)
    requires
        0 <= i <= c.len(),
    ensures
        total_occurrences(c.take(i)) <= total_occurrences(c),
    decreases c.len() - i,
{
    if i == c.len() {
        assert(c.take(i) =~= c);
    } else {
        assert(c.take(i + 1).drop_last() =~= c.take(i));
        assert(c.take(i + 1).last() == c[i]);
        lemma_total_occurrences_prefix(c, i + 1);
    }
}

// ---------------------------------------------------------------------------
// A label or pair is recorded if and only if it occurs in the corpus.
// ---------------------------------------------------------------------------

/// A label is among the distinct labels exactly when some example bears it.
pub proof fn lemma_distinct_labels_contains(c: CorpusV, l: LabelV)
    ensures
        distinct_labels(c).contains(l) <==> label_total(c, l) > 0,
    decreases c.len(),
{
    if c.len() > 0 {
        lemma_distinct_labels_contains(c.drop_last(), l);
        let p = distinct_labels(c.drop_last());
        let x = c.last().1;
        if !p.contains(x) {
            assert(p.push(x)[p.len() as int] == x);
            assert(forall|i: int| 0 <= i < p.len() ==> p.push(x)[i] == p[i]);
            assert(p.push(x).contains(l) <==> (p.contains(l) || l == x)) by {
                if p.push(x).contains(l) {
                    let i = choose|i: int| 0 <= i < p.push(x).len() && p.push(x)[i] == l;
                    if i < p.len() {
                        assert(p[i] == l);
                    }
                }
                if p.contains(l) {
                    let i = choose|i: int| 0 <= i < p.len() && p[i] == l;
                    assert(p.push(x)[i] == l);
                }
            }
        }
    }
}

/// A pair is in the merged pair sequence exactly when it was there before
/// or the example contributes it.
pub proof fn lemma_merge_pairs_contains(
    p: Seq<(LabelV, FeatureV)>,
    l: LabelV,
    fs: Seq<FeatureV>,
    k: (LabelV, FeatureV),
)
    ensures
        merge_pairs(p, l, fs).contains(k) <==> (p.contains(k) || (k.0 == l && count_in(fs, k.1)
            > 0)),
    decreases fs.len(),
{
    if fs.len() > 0 {
        lemma_merge_pairs_contains(p, l, fs.drop_last(), k);
        let q = merge_pairs(p, l, fs.drop_last());
        let x = (l, fs.last());
        if !q.contains(x) {
            assert(q.push(x)[q.len() as int] == x);
            assert(forall|i: int| 0 <= i < q.len() ==> q.push(x)[i] == q[i]);
            assert(q.push(x).contains(k) <==> (q.contains(k) || k == x)) by {
                if q.push(x).contains(k) {
                    let i = choose|i: int| 0 <= i < q.push(x).len() && q.push(x)[i] == k;
                    if i < q.len() {
                        assert(q[i] == k);
                    }
                }
                if q.contains(k) {
                    let i = choose|i: int| 0 <= i < q.len() && q[i] == k;
                    assert(q.push(x)[i] == k);
                }
            }
        }
    }
}

/// A pair is among the distinct pairs exactly when its feature occurs under
/// its label somewhere in the corpus.
pub proof fn lemma_distinct_pairs_contains(c: CorpusV, l: LabelV, f: FeatureV)
    ensures
        distinct_pairs(c).contains((l, f)) <==> feature_count(c, l, f) > 0,
    decreases c.len(),
{
    if c.len() > 0 {
        lemma_distinct_pairs_contains(c.drop_last(), l, f);
        lemma_merge_pairs_contains(distinct_pairs(c.drop_last()), c.last().1, c.last().0, (l, f));
    }
}

/// A feature occurring under a label implies an example bearing that label.
pub proof fn lemma_feature_count_le_occ_label(c: CorpusV, l: LabelV, f: FeatureV)
    ensures
        feature_count(c, l, f) > 0 ==> label_total(c, l) > 0,
    decreases c.len(),
{
    if c.len() > 0 {
        lemma_feature_count_le_occ_label(c.drop_last(), l, f);
    }
}

// ---------------------------------------------------------------------------
// The counter's output types.
// ---------------------------------------------------------------------------

/// How many training examples bear each label. Produced by
/// [`count_features`]; the sum of all totals equals the number of
/// training examples.
pub struct LabelTotals {
    entries: Vec<(Label, u32)>,
}

/// How often each (feature, label) pair occurs in the corpus. Produced by
/// [`count_features`].
pub struct FeatureCounts {
    entries: Vec<(Label, Feature, u32)>,
}

/// The mathematical reading of a totals vector.
pub open spec fn totals_view(s: Seq<(Label, u32)>) -> Seq<(LabelV, nat)> {
    s.map_values(|p: (Label, u32)| (p.0@, p.1 as nat))
}

/// The mathematical reading of a counts vector.
pub open spec fn counts_view(s: Seq<(Label, Feature, u32)>) -> Seq<((LabelV, FeatureV), nat)> {
    s.map_values(|p: (Label, Feature, u32)| ((p.0@, p.1@), p.2 as nat))
}

impl LabelTotals {
    /// The association sequence this mapping stands for.
    pub closed spec fn kv(self) -> Seq<(LabelV, nat)> {
        totals_view(self.entries@)
    }

    /// The labels of the mapping, in order of first occurrence.
    pub open spec fn keys(self) -> Seq<LabelV> {
        assoc_keys(self.kv())
    }

    /// The count of training examples bearing label `l` (0 if absent).
    pub open spec fn total_of(self, l: LabelV) -> nat {
        assoc_lookup(self.kv(), l, 0)
    }

    /// The sum of all the totals.
    pub open spec fn sum(self) -> nat {
        sel_sum(self.kv(), sel_true())
    }

    /// Structural invariant: distinct labels, and no label was recorded
    /// without at least one example.
    pub open spec fn wf(self) -> bool {
        &&& self.keys().no_duplicates()
        &&& forall|j: int| 0 <= j < self.kv().len() ==> (#[trigger] self.kv()[j]).1 >= 1
    }

    /// The number of recorded labels.
    pub fn len(&self) -> (n: usize)
        ensures
            n == self.kv().len(),
    {
        self.entries.len()
    }

    /// The label recorded at position `i`.
    pub fn label_at(&self, i: usize) -> (l: &Label)
        requires
            i < self.kv().len(),
        ensures
            l@ == self.kv()[i as int].0,
    {
        &self.entries[i].0
    }

    /// The total recorded at position `i`.
    pub fn total_at(&self, i: usize) -> (t: u32)
        requires
            i < self.kv().len(),
        ensures
            t as nat == self.kv()[i as int].1,
    {
        self.entries[i].1
    }

    /// Finds the position of label `l`, if it was recorded.
    pub fn find(&self, l: &Label) -> (r: Option<usize>)
        ensures
            match r {
                Some(i) => i < self.kv().len() && self.kv()[i as int].0 == l@ && self.total_of(l@)
                    == self.kv()[i as int].1,
                None => !self.keys().contains(l@) && self.total_of(l@) == 0,
            },
    {
        let r = find_label(&self.entries, l);
        proof {
            match r {
                Some(i) => {
                    assert(forall|j: int|
                        0 <= j < i ==> (#[trigger] self.kv()[j]).0 != l@);
                    lemma_assoc_lookup_at(self.kv(), i as int, l@, 0);
                },
                None => {
                    assert(forall|j: int|
                        0 <= j < self.kv().len() ==> (#[trigger] self.kv()[j]).0 != l@);
                    assert(forall|j: int|
                        0 <= j < self.keys().len() ==> #[trigger] self.keys()[j] != l@);
                    lemma_assoc_lookup_absent(self.kv(), l@, 0);
                },
            }
        }
        r
    }
}

impl FeatureCounts {
    /// The association sequence this mapping stands for.
    pub closed spec fn kv(self) -> Seq<((LabelV, FeatureV), nat)> {
        counts_view(self.entries@)
    }

    /// The distinct (label, feature) pairs, in order of first occurrence.
    pub open spec fn keys(self) -> Seq<(LabelV, FeatureV)> {
        assoc_keys(self.kv())
    }

    /// The occurrence count recorded for feature `f` under label `l`
    /// (0 if absent).
    pub open spec fn count_of(self, l: LabelV, f: FeatureV) -> nat {
        assoc_lookup(self.kv(), (l, f), 0)
    }

    /// The sum of the counts recorded under label `l`.
    pub open spec fn sum_for(self, l: LabelV) -> nat {
        sel_sum(self.kv(), sel_label(l))
    }

    /// Structural invariant: distinct pairs, every count at least 1.
    pub open spec fn wf(self) -> bool {
        &&& self.keys().no_duplicates()
        &&& forall|j: int| 0 <= j < self.kv().len() ==> (#[trigger] self.kv()[j]).1 >= 1
    }

    /// The number of recorded (label, feature) pairs.
    pub fn len(&self) -> (n: usize)
        ensures
            n == self.kv().len(),
    {
        self.entries.len()
    }

    /// The label of the pair recorded at position `i`.
    pub fn label_at(&self, i: usize) -> (l: &Label)
        requires
            i < self.kv().len(),
        ensures
            l@ == self.kv()[i as int].0.0,
    {
        &self.entries[i].0
    }

    /// The feature of the pair recorded at position `i`.
    pub fn feature_at(&self, i: usize) -> (f: &Feature)
        requires
            i < self.kv().len(),
        ensures
            f@ == self.kv()[i as int].0.1,
    {
        &self.entries[i].1
    }

    /// The count recorded at position `i`.
    pub fn count_at(&self, i: usize) -> (c: u32)
        requires
            i < self.kv().len(),
        ensures
            c as nat == self.kv()[i as int].1,
    {
        self.entries[i].2
    }
}

// ---------------------------------------------------------------------------
// Executable lookup helpers.
// ---------------------------------------------------------------------------

fn find_label(entries: &Vec<(Label, u32)>, l: &Label) -> (r: Option<usize>)
    ensures
        match r {
            Some(i) => i < entries@.len() && entries@[i as int].0@ == l@ && forall|j: int|
                0 <= j < i ==> entries@[j].0@ != l@,
            None => forall|j: int| 0 <= j < entries@.len() ==> entries@[j].0@ != l@,
        },
{
    let mut i: usize = 0;
    while i < entries.len()
        invariant
            0 <= i <= entries@.len(),
            forall|j: int| 0 <= j < i ==> entries@[j].0@ != l@,
        decreases entries@.len() - i,
    {
        if entries[i].0 == *l {
            return Some(i);
        }
        i = i + 1;
    }
    None
}

fn find_pair(entries: &Vec<(Label, Feature, u32)>, l: &Label, f: &Feature) -> (r: Option<usize>)
    ensures
        match r {
            Some(i) => i < entries@.len() && entries@[i as int].0@ == l@ && entries@[i as int].1@
                == f@ && forall|j: int|
                0 <= j < i ==> !(entries@[j].0@ == l@ && entries@[j].1@ == f@),
            None => forall|j: int|
                0 <= j < entries@.len() ==> !(entries@[j].0@ == l@ && entries@[j].1@ == f@),
        },
{
    let mut i: usize = 0;
    while i < entries.len()
        invariant
            0 <= i <= entries@.len(),
            forall|j: int| 0 <= j < i ==> !(entries@[j].0@ == l@ && entries@[j].1@ == f@),
        decreases entries@.len() - i,
    {
        if entries[i].0 == *l && entries[i].1.same_as(f) {
            return Some(i);
        }
        i = i + 1;
    }
    None
}

// ---------------------------------------------------------------------------
// The counter itself.
// ---------------------------------------------------------------------------

/// One pass over the corpus: counts how many examples bear each label, and
/// how often each (feature, label) pair occurs. Both outputs are freshly
/// allocated; the result is determined by the corpus alone.
pub fn count_features(corpus: &Vec<TrainingExample>) -> (r: (LabelTotals, FeatureCounts))
    requires
        corpus@.len() <= u32::MAX,
        total_occurrences(corpus.deep_view()) <= u32::MAX,
    ensures
        r.0.wf(),
        r.1.wf(),
        r.0.keys() == distinct_labels(corpus.deep_view()),
        forall|l: LabelV| #[trigger] r.0.total_of(l) == label_total(corpus.deep_view(), l),
        r.0.sum() == corpus.deep_view().len(),
        r.1.keys() == distinct_pairs(corpus.deep_view()),
        forall|l: LabelV, f: FeatureV| #[trigger] r.1.count_of(l, f) == feature_count(
            corpus.deep_view(),
            l,
            f,
        ),
        forall|l: LabelV| #[trigger] r.1.sum_for(l) == label_occurrences(corpus.deep_view(), l),
{
    let ghost cv = corpus.deep_view();
    let mut totals: Vec<(Label, u32)> = Vec::new();
    let mut fcounts: Vec<(Label, Feature, u32)> = Vec::new();
    let mut i: usize = 0;
    while i < corpus.len()
        invariant
            0 <= i <= corpus@.len(),
            cv == corpus.deep_view(),
            cv.len() == corpus@.len(),
            corpus@.len() <= u32::MAX,
            total_occurrences(cv) <= u32::MAX,
            assoc_keys(totals_view(totals@)).no_duplicates(),
            assoc_keys(totals_view(totals@)) == distinct_labels(cv.take(i as int)),
            forall|l: LabelV| #[trigger] assoc_lookup(totals_view(totals@), l, 0) == label_total(
                cv.take(i as int),
                l,
            ),
            sel_sum(totals_view(totals@), sel_true()) == i as nat,
            forall|j: int|
                0 <= j < totals@.len() ==> (#[trigger] totals_view(totals@)[j]).1 >= 1,
            assoc_keys(counts_view(fcounts@)).no_duplicates(),
            assoc_keys(counts_view(fcounts@)) == distinct_pairs(cv.take(i as int)),
            forall|l: LabelV, f: FeatureV| #[trigger] assoc_lookup(
                counts_view(fcounts@),
                (l, f),
                0,
            ) == feature_count(cv.take(i as int), l, f),
            forall|l: LabelV| #[trigger] sel_sum(counts_view(fcounts@), sel_label(l))
                == label_occurrences(cv.take(i as int), l),
            forall|j: int|
                0 <= j < fcounts@.len() ==> (#[trigger] counts_view(fcounts@)[j]).1 >= 1,
        decreases corpus@.len() - i,
    {
        let example = &corpus[i];
        let lbl = &example.1;
        let fs = &example.0;
        let ghost pre = cv.take(i as int);
        let ghost post = cv.take(i as int + 1);
        let ghost fsv = fs.deep_view();
        proof {
            assert(post.drop_last() =~= pre);
            assert(cv[i as int] == (corpus@[i as int].0.deep_view(), corpus@[i as int].1@));
            assert(post.last() == cv[i as int]);
            assert(post.last().1 == lbl@);
            assert(post.last().0 == fsv);
        }
        // Tally the example's label.
        let ghost ots = totals@;
        match find_label(&totals, lbl) {
            Some(idx) => {
                let t = totals[idx].1;
                proof {
                    let otv = totals_view(ots);
                    assert(otv[idx as int].0 == lbl@);
                    assert(forall|j: int| 0 <= j < idx ==> otv[j].0 != lbl@);
                    lemma_assoc_lookup_at(otv, idx as int, lbl@, 0);
                    lemma_label_total_le_len(pre, lbl@);
                    assert(t as nat == label_total(pre, lbl@));
                    assert(t < u32::MAX);
                }
                totals[idx].1 = t + 1;
                proof {
                    let otv = totals_view(ots);
                    assert(totals@ =~= ots.update(idx as int, (ots[idx as int].0, (t + 1) as u32)));
                    assert(totals_view(totals@) =~= otv.update(
                        idx as int,
                        (otv[idx as int].0, (t + 1) as nat),
                    ));
                    assert(assoc_keys(totals_view(totals@)) =~= assoc_keys(otv));
                    assert(distinct_labels(pre).contains(lbl@)) by {
                        assert(distinct_labels(pre)[idx as int] == lbl@);
                    }
                    assert(distinct_labels(post) == distinct_labels(pre));
                    assert forall|l: LabelV| #[trigger] assoc_lookup(totals_view(totals@), l, 0)
                        == label_total(post, l) by {
                        lemma_assoc_lookup_update(otv, idx as int, (t + 1) as nat, l, 0);
                    }
                    lemma_sel_sum_update(otv, idx as int, (t + 1) as nat, sel_true());
                    assert(sel_sum(totals_view(totals@), sel_true()) == i + 1);
                }
            },
            None => {
                totals.push((lbl.clone(), 1));
                proof {
                    let otv = totals_view(ots);
                    assert(totals@ =~= ots.push((*lbl, 1u32)));
                    assert(totals_view(totals@) =~= otv.push((lbl@, 1nat)));
                    assert(assoc_keys(totals_view(totals@)) =~= assoc_keys(otv).push(lbl@));
                    assert(forall|j: int| 0 <= j < otv.len() ==> (#[trigger] otv[j]).0 != lbl@);
                    assert(forall|j: int|
                        0 <= j < otv.len() ==> #[trigger] assoc_keys(otv)[j] != lbl@);
                    assert(!distinct_labels(pre).contains(lbl@));
                    assert(distinct_labels(post) == distinct_labels(pre).push(lbl@));
                    assert(assoc_keys(totals_view(totals@)).no_duplicates());
                    lemma_distinct_labels_contains(pre, lbl@);
                    assert(label_total(pre, lbl@) == 0);
                    assert forall|l: LabelV| #[trigger] assoc_lookup(totals_view(totals@), l, 0)
                        == label_total(post, l) by {
                        lemma_assoc_lookup_push(otv, lbl@, 1nat, l, 0);
                    }
                    assert(totals_view(totals@).drop_last() =~= otv);
                    assert(sel_sum(totals_view(totals@), sel_true()) == i + 1);
                }
            },
        }
        // Tally each feature occurrence of the example under its label.
        let mut j: usize = 0;
        while j < fs.len()
            invariant
                0 <= j <= fs@.len(),
                cv == corpus.deep_view(),
                cv.len() == corpus@.len(),
                corpus@.len() <= u32::MAX,
                total_occurrences(cv) <= u32::MAX,
                0 <= i < corpus@.len(),
                fs == &corpus@[i as int].0,
                lbl == &corpus@[i as int].1,
                fsv == fs.deep_view(),
                fsv.len() == fs@.len(),
                pre == cv.take(i as int),
                post == cv.take(i as int + 1),
                post.drop_last() == pre,
                post.last().1 == lbl@,
                post.last().0 == fsv,
                assoc_keys(totals_view(totals@)).no_duplicates(),
                assoc_keys(totals_view(totals@)) == distinct_labels(post),
                forall|l: LabelV| #[trigger] assoc_lookup(totals_view(totals@), l, 0)
                    == label_total(post, l),
                sel_sum(totals_view(totals@), sel_true()) == i + 1,
                forall|k: int|
                    0 <= k < totals@.len() ==> (#[trigger] totals_view(totals@)[k]).1 >= 1,
                assoc_keys(counts_view(fcounts@)).no_duplicates(),
                assoc_keys(counts_view(fcounts@)) == merge_pairs(
                    distinct_pairs(pre),
                    lbl@,
                    fsv.take(j as int),
                ),
                forall|l: LabelV, f: FeatureV| #[trigger] assoc_lookup(
                    counts_view(fcounts@),
                    (l, f),
                    0,
                ) == feature_count(pre, l, f) + (if l == lbl@ {
                    count_in(fsv.take(j as int), f)
                } else {
                    0nat
                }),
                forall|l: LabelV| #[trigger] sel_sum(counts_view(fcounts@), sel_label(l))
                    == label_occurrences(pre, l) + (if l == lbl@ {
                    j as nat
                } else {
                    0nat
                }),
                forall|k: int|
                    0 <= k < fcounts@.len() ==> (#[trigger] counts_view(fcounts@)[k]).1 >= 1,
            decreases fs@.len() - j,
        {
            let f = &fs[j];
            let ghost ocs = fcounts@;
            let ghost tk = fsv.take(j as int);
            let ghost tk1 = fsv.take(j as int + 1);
            proof {
                assert(fsv[j as int] == f@);
                assert(tk1.drop_last() =~= tk);
                assert(tk1.last() == f@);
            }
            match find_pair(&fcounts, lbl, f) {
                Some(idx) => {
                    let t = fcounts[idx].2;
                    proof {
                        let ocv = counts_view(ocs);
                        assert(ocv[idx as int].0 == (lbl@, f@));
                        assert(forall|k: int| 0 <= k < idx ==> ocv[k].0 != (lbl@, f@));
                        lemma_assoc_lookup_at(ocv, idx as int, (lbl@, f@), 0);
                        lemma_feature_count_le_occurrences(pre, lbl@, f@);
                        lemma_count_in_le_len(tk, f@);
                        lemma_total_occurrences_prefix(cv, i as int + 1);
                        assert(total_occurrences(post) == total_occurrences(pre) + fsv.len());
                        assert(t < u32::MAX);
                    }
                    fcounts[idx].2 = t + 1;
                    proof {
                        let ocv = counts_view(ocs);
                        assert(fcounts@ =~= ocs.update(
                            idx as int,
                            (ocs[idx as int].0, ocs[idx as int].1, (t + 1) as u32),
                        ));
                        assert(counts_view(fcounts@) =~= ocv.update(
                            idx as int,
                            (ocv[idx as int].0, (t + 1) as nat),
                        ));
                        assert(assoc_keys(counts_view(fcounts@)) =~= assoc_keys(ocv));
                        assert(merge_pairs(distinct_pairs(pre), lbl@, tk).contains((lbl@, f@))) by {
                            assert(merge_pairs(distinct_pairs(pre), lbl@, tk)[idx as int] == (
                                lbl@,
                                f@,
                            ));
                        }
                        assert(merge_pairs(distinct_pairs(pre), lbl@, tk1) == merge_pairs(
                            distinct_pairs(pre),
                            lbl@,
                            tk,
                        ));
                        assert forall|l: LabelV, ff: FeatureV| #[trigger] assoc_lookup(
                            counts_view(fcounts@),
                            (l, ff),
                            0,
                        ) == feature_count(pre, l, ff) + (if l == lbl@ {
                            count_in(tk1, ff)
                        } else {
                            0nat
                        }) by {
                            lemma_assoc_lookup_update(ocv, idx as int, (t + 1) as nat, (l, ff), 0);
                        }
                        assert forall|l: LabelV| #[trigger] sel_sum(
                            counts_view(fcounts@),
                            sel_label(l),
                        ) == label_occurrences(pre, l) + (if l == lbl@ {
                            (j + 1) as nat
                        } else {
                            0nat
                        }) by {
                            lemma_sel_sum_update(ocv, idx as int, (t + 1) as nat, sel_label(l));
                        }
                    }
                },
                None => {
                    fcounts.push((lbl.clone(), f.clone(), 1));
                    proof {
                        let ocv = counts_view(ocs);
                        assert(fcounts@ =~= ocs.push((*lbl, *f, 1u32)));
                        assert(counts_view(fcounts@) =~= ocv.push(((lbl@, f@), 1nat)));
                        assert(assoc_keys(counts_view(fcounts@)) =~= assoc_keys(ocv).push(
                            (lbl@, f@),
                        ));
                        assert(forall|k: int|
                            0 <= k < ocv.len() ==> (#[trigger] ocv[k]).0 != (lbl@, f@));
                        assert(forall|k: int|
                            0 <= k < ocv.len() ==> #[trigger] assoc_keys(ocv)[k] != (lbl@, f@));
                        assert(!merge_pairs(distinct_pairs(pre), lbl@, tk).contains((lbl@, f@)));
                        assert(merge_pairs(distinct_pairs(pre), lbl@, tk1) == merge_pairs(
                            distinct_pairs(pre),
                            lbl@,
                            tk,
                        ).push((lbl@, f@)));
                        assert(assoc_keys(counts_view(fcounts@)).no_duplicates());
                        lemma_merge_pairs_contains(distinct_pairs(pre), lbl@, tk, (lbl@, f@));
                        lemma_distinct_pairs_contains(pre, lbl@, f@);
                        assert(feature_count(pre, lbl@, f@) == 0);
                        assert(count_in(tk, f@) == 0);
                        assert forall|l: LabelV, ff: FeatureV| #[trigger] assoc_lookup(
                            counts_view(fcounts@),
                            (l, ff),
                            0,
                        ) == feature_count(pre, l, ff) + (if l == lbl@ {
                            count_in(tk1, ff)
                        } else {
                            0nat
                        }) by {
                            lemma_assoc_lookup_push(ocv, (lbl@, f@), 1nat, (l, ff), 0);
                        }
                        assert(counts_view(fcounts@).drop_last() =~= ocv);
                        assert forall|l: LabelV| #[trigger] sel_sum(
                            counts_view(fcounts@),
                            sel_label(l),
                        ) == label_occurrences(pre, l) + (if l == lbl@ {
                            (j + 1) as nat
                        } else {
                            0nat
                        }) by {
                            assert(sel_sum(counts_view(fcounts@), sel_label(l)) == sel_sum(
                                ocv,
                                sel_label(l),
                            ) + (if sel_label(l)((lbl@, f@)) {
                                1nat
                            } else {
                                0nat
                            }));
                        }
                    }
                },
            }
            j = j + 1;
        }
        proof {
            assert(fsv.take(fsv.len() as int) =~= fsv);
            assert(assoc_keys(counts_view(fcounts@)) == distinct_pairs(post));
            assert(forall|l: LabelV, f: FeatureV| #[trigger] assoc_lookup(
                counts_view(fcounts@),
                (l, f),
                0,
            ) == feature_count(post, l, f));
            assert(forall|l: LabelV| #[trigger] sel_sum(counts_view(fcounts@), sel_label(l))
                == label_occurrences(post, l));
        }
        i = i + 1;
    }
    proof {
        assert(cv.take(i as int) =~= cv);
    }
    (LabelTotals { entries: totals }, FeatureCounts { entries: fcounts })
}

} // verus!
