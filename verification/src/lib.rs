//! A verified Naive Bayes classifier.
//!
//! Training counts how often each (feature, label) pair occurs in a labeled
//! corpus and normalizes the counts into exact conditional likelihoods;
//! classification ranks the trained labels by their posterior score on a
//! query feature set.

pub mod bignat;
pub mod counts;
pub mod feature;
pub mod laws;
pub mod model;
pub mod naivebayes;
