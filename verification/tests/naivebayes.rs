use naive_bayes::counts::count_features;
use naive_bayes::feature::{Feature, TrainingExample};
use naive_bayes::model::{Likelihood, Model, ModelError};
use naive_bayes::naivebayes::NaiveBayes;

fn ex(value: char, label: &str) -> TrainingExample {
    (vec![Feature::new("last-letter", value)], label.to_string())
}

fn name_corpus() -> Vec<TrainingExample> {
    vec![ex('a', "female"), ex('e', "female"), ex('k', "male"), ex('p', "male")]
}

fn lookup(
    table: &Vec<(String, Vec<(Feature, Likelihood)>)>,
    label: &str,
    value: char,
) -> Option<(u32, u32)> {
    for (l, row) in table {
        if l == label {
            for (f, lik) in row {
                if f.name == "last-letter" && f.value == value {
                    return Some((lik.num, lik.den));
                }
            }
        }
    }
    None
}

#[test]
fn train_test() {
    let model = NaiveBayes::train(&name_corpus());
    let table = model.get_likelihoods();
    assert_eq!(table.len(), 2);
    assert_eq!(lookup(&table, "female", 'a'), Some((1, 2)));
    assert_eq!(lookup(&table, "female", 'e'), Some((1, 2)));
    assert_eq!(lookup(&table, "male", 'k'), Some((1, 2)));
    assert_eq!(lookup(&table, "male", 'p'), Some((1, 2)));
    for (_, row) in &table {
        for (_, lik) in row {
            assert_eq!(lik.num as f64 / lik.den as f64, 0.5);
        }
    }
}

#[test]
fn classify_example_scenario() {
    let model = NaiveBayes::train(&name_corpus());
    let query = vec![Feature::new("last-letter", 'k')];
    let label = NaiveBayes::test(&query, &model).unwrap();
    assert_eq!(label, "male");
    let query = vec![Feature::new("last-letter", 'a')];
    let label = NaiveBayes::test(&query, &model).unwrap();
    assert_eq!(label, "female");
}

#[test]
fn empty_corpus_trains_empty_model() {
    let corpus: Vec<TrainingExample> = vec![];
    let model = NaiveBayes::train(&corpus);
    let query = vec![Feature::new("last-letter", 'a')];
    assert_eq!(NaiveBayes::test(&query, &model), Err(ModelError::EmptyModel));
    let table = model.get_likelihoods();
    assert!(table.is_empty());
}

#[test]
fn empty_model_classification_fails() {
    let model = Model::new();
    let query: Vec<Feature> = vec![];
    assert_eq!(NaiveBayes::test(&query, &model), Err(ModelError::EmptyModel));
}

#[test]
fn training_is_order_independent() {
    let model1 = NaiveBayes::train(&name_corpus());
    let permuted = vec![ex('p', "male"), ex('a', "female"), ex('k', "male"), ex('e', "female")];
    let model2 = NaiveBayes::train(&permuted);
    let table1 = model1.get_likelihoods();
    let table2 = model2.get_likelihoods();
    assert_eq!(table1.len(), table2.len());
    for value in ['a', 'e', 'k', 'p'] {
        for label in ["female", "male"] {
            assert_eq!(lookup(&table1, label, value), lookup(&table2, label, value));
        }
    }
}

#[test]
fn unseen_feature_does_not_crash() {
    // The documented fallback: a feature absent from a label's table
    // contributes probability zero. A feature unseen anywhere zeroes every
    // label's score, and the tie goes to the label seen first in training.
    let model = NaiveBayes::train(&name_corpus());
    let query = vec![Feature::new("last-letter", 'z')];
    let label = NaiveBayes::test(&query, &model).unwrap();
    assert_eq!(label, "female");
}

#[test]
fn zeroing_feature_outweighed_by_matching_one() {
    // "male" has seen 'k'; "female" has not. The query pairs 'k' with a
    // feature neither label has seen, so both scores are zero and the
    // first-seen label wins; with 'k' alone, "male" wins.
    let model = NaiveBayes::train(&name_corpus());
    let query = vec![Feature::new("last-letter", 'k'), Feature::new("first-letter", 'q')];
    assert_eq!(NaiveBayes::test(&query, &model).unwrap(), "female");
}

#[test]
fn repeated_feature_counts_every_occurrence() {
    let corpus = vec![
        ex('n', "a"),
        ex('n', "a"),
        ex('m', "a"),
        ex('n', "b"),
    ];
    let model = NaiveBayes::train(&corpus);
    let table = model.get_likelihoods();
    assert_eq!(lookup(&table, "a", 'n'), Some((2, 3)));
    assert_eq!(lookup(&table, "a", 'm'), Some((1, 3)));
    assert_eq!(lookup(&table, "b", 'n'), Some((1, 1)));
    assert_eq!(lookup(&table, "b", 'm'), None);
}

#[test]
fn classification_prefers_higher_posterior() {
    let corpus = vec![
        ex('n', "a"),
        ex('n', "a"),
        ex('m', "a"),
        ex('n', "b"),
    ];
    let model = NaiveBayes::train(&corpus);
    // score(a) = 3/4 * 2/3 = 1/2, score(b) = 1/4 * 1/1 = 1/4.
    let query = vec![Feature::new("last-letter", 'n')];
    assert_eq!(NaiveBayes::test(&query, &model).unwrap(), "a");
    // score(a) = 3/4 * 1/3 = 1/4, score(b) = 1/4 * 0 = 0.
    let query = vec![Feature::new("last-letter", 'm')];
    assert_eq!(NaiveBayes::test(&query, &model).unwrap(), "a");
}

#[test]
fn multi_feature_examples_count_each_feature() {
    let corpus = vec![
        (
            vec![Feature::new("last-letter", 'a'), Feature::new("first-letter", 'b')],
            "x".to_string(),
        ),
        (vec![], "x".to_string()),
    ];
    let model = NaiveBayes::train(&corpus);
    let table = model.get_likelihoods();
    assert_eq!(table.len(), 1);
    assert_eq!(table[0].1.len(), 2);
    assert_eq!(lookup(&table, "x", 'a'), Some((1, 2)));
}

#[test]
fn count_conservation_on_single_feature_corpus() {
    // Every example carries exactly one feature, so per label the counts
    // sum to the label's example total (the shared denominator).
    let model = NaiveBayes::train(&name_corpus());
    let table = model.get_likelihoods();
    for (_, row) in &table {
        assert!(!row.is_empty());
        let den = row[0].1.den;
        let sum: u32 = row.iter().map(|(_, lik)| lik.num).sum();
        assert_eq!(sum, den);
    }
}

#[test]
fn mixed_counts_are_rejected() {
    // Counts whose label never received a total: the defensive guard in
    // normalization reports the invalid state.
    let (totals_a, _counts_a) = count_features(&vec![ex('a', "x")]);
    let (_totals_b, counts_b) = count_features(&vec![ex('a', "y")]);
    assert_eq!(
        Model::from_counts(&totals_a, &counts_b).map(|_| ()),
        Err(ModelError::InvalidState)
    );
}

#[test]
fn matching_counts_are_accepted() {
    let corpus = name_corpus();
    let (totals, counts) = count_features(&corpus);
    let model = Model::from_counts(&totals, &counts).unwrap();
    let table = model.get_likelihoods();
    assert_eq!(lookup(&table, "male", 'k'), Some((1, 2)));
}
