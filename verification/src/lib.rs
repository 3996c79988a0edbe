//! A multinomial naive Bayes text classifier.
//!
//! Training documents arrive as sequences of string attributes (tokens), each
//! under a label. The model counts, per attribute, how often it was seen under
//! each label, and, per label, how many documents carried it. Classification
//! scores every known label by the product of per-attribute conditional
//! probabilities times the label's prior, and returns the best label.
//!
//! All probabilities are exact rationals over the recorded counts; scores are
//! compared by cross-multiplying their numerators and denominators as
//! arbitrary-precision naturals, so no rounding or underflow enters the
//! comparison.

pub mod attributes;
pub mod bignat;
pub mod classifier;
pub mod counts;
pub mod labels;
pub mod model;

pub use classifier::ClassifyError;
pub use classifier::NaiveBayes;
pub use classifier::Probability;
pub use counts::count_of;
pub use counts::counts_has;
pub use counts::keys_of;
pub use counts::sum_of;
pub use labels::Labels;
pub use model::Model;
pub use attributes::Attributes;
