use naive_bayes::Attributes;
use naive_bayes::ClassifyError;
use naive_bayes::Labels;
use naive_bayes::Model;
use naive_bayes::NaiveBayes;
use naive_bayes::Probability;

fn doc(words: &[&str]) -> Vec<String> {
    words.iter().map(|w| w.to_string()).collect()
}

/// Two documents: "buy buy now" as spam, "hello friend" as norm.
fn spam_norm_model() -> NaiveBayes {
    let mut nb = NaiveBayes::new();
    nb.train(&doc(&["buy", "buy", "now"]), "spam");
    nb.train(&doc(&["hello", "friend"]), "norm");
    nb
}

#[test]
fn total_equals_number_of_train_calls() {
    let mut m = Model::new();
    assert_eq!(m.labels.get_total(), 0);
    m.train(&doc(&["a", "b", "c", "d"]), "x");
    m.train(&doc(&[]), "y");
    m.train(&doc(&["a"]), "x");
    assert_eq!(m.labels.get_total(), 3);
}

#[test]
fn label_counter_counts_documents() {
    let mut l = Labels::new();
    l.add("car");
    l.add("game");
    l.add("car");
    assert_eq!(l.get_count("car"), Some(2));
    assert_eq!(l.get_count("game"), Some(1));
    assert_eq!(l.get_count("it"), None);
    assert_eq!(l.get_total(), 3);
    assert_eq!(l.get_labels(), vec!["car".to_string(), "game".to_string()]);
}

#[test]
fn frequency_equals_number_of_adds() {
    let mut a = Attributes::new();
    a.add("buy", "spam");
    a.add("buy", "spam");
    a.add("buy", "norm");
    assert_eq!(a.get_frequency("buy", "spam"), (Some(2), true));
    a.add("buy", "spam");
    assert_eq!(a.get_frequency("buy", "spam"), (Some(3), true));
}

#[test]
fn frequency_distinguishes_three_cases() {
    let mut a = Attributes::new();
    a.add("buy", "spam");
    assert_eq!(a.get_frequency("nowhere", "spam"), (None, false));
    assert_eq!(a.get_frequency("buy", "norm"), (None, true));
    assert_eq!(a.get_frequency("buy", "spam"), (Some(1), true));
}

#[test]
fn duplicates_in_one_document_count_separately() {
    let nb = spam_norm_model();
    assert_eq!(
        nb.attribute_probability("buy", "spam"),
        Some(Probability { num: 2, den: 1 })
    );
}

#[test]
fn prior_none_for_untrained_label() {
    let nb = spam_norm_model();
    assert_eq!(nb.prior("car"), None);
}

#[test]
fn prior_none_before_any_training() {
    let nb = NaiveBayes::new();
    assert_eq!(nb.prior("spam"), None);
}

#[test]
fn attribute_probability_none_for_unseen_attribute() {
    let nb = spam_norm_model();
    assert_eq!(nb.attribute_probability("xyz123", "spam"), None);
    assert_eq!(nb.attribute_probability("xyz123", "norm"), None);
    assert_eq!(nb.attribute_probability("xyz123", "car"), None);
}

#[test]
fn attribute_probability_floor_for_known_attribute_under_other_label() {
    let nb = spam_norm_model();
    assert_eq!(
        nb.attribute_probability("buy", "norm"),
        Some(Probability { num: 1, den: 1000000000 })
    );
    assert_eq!(
        nb.attribute_probability("hello", "spam"),
        Some(Probability { num: 1, den: 1000000000 })
    );
}

#[test]
fn classify_twice_yields_same_label() {
    let nb = spam_norm_model();
    let input = doc(&["buy", "friend"]);
    let first = nb.classify(&input).unwrap();
    let second = nb.classify(&input).unwrap();
    assert_eq!(first, second);
}

#[test]
fn scenario_a_known_attributes_pick_spam() {
    let nb = spam_norm_model();
    assert_eq!(nb.classify(&doc(&["buy", "now"])).unwrap(), "spam");
}

#[test]
fn scenario_b_unseen_attribute_falls_back_to_prior_tiebreak() {
    let nb = spam_norm_model();
    // Both priors are 1/2 and the unseen attribute is skipped, so the scores
    // tie; a tie goes to the label trained later in first-trained order.
    assert_eq!(nb.classify(&doc(&["xyz123"])).unwrap(), "norm");
}

#[test]
fn scenario_c_empty_document_ranks_by_prior() {
    let nb = spam_norm_model();
    // Priors tie, so the tie-break rule picks the later-trained label.
    assert_eq!(nb.classify(&doc(&[])).unwrap(), "norm");
    let mut nb = nb;
    nb.train(&doc(&["cheap"]), "spam");
    // Now prior(spam) = 2/3 beats prior(norm) = 1/3.
    assert_eq!(nb.classify(&doc(&[])).unwrap(), "spam");
}

#[test]
fn scenario_d_priors_exact() {
    let mut nb = NaiveBayes::new();
    nb.train(&doc(&["one"]), "a");
    nb.train(&doc(&["two"]), "a");
    nb.train(&doc(&["three"]), "a");
    nb.train(&doc(&["four"]), "b");
    let pa = nb.prior("a").unwrap();
    let pb = nb.prior("b").unwrap();
    assert_eq!(pa, Probability { num: 3, den: 4 });
    assert_eq!(pb, Probability { num: 1, den: 4 });
    assert_eq!(pa.num as f64 / pa.den as f64, 0.75);
    assert_eq!(pb.num as f64 / pb.den as f64, 0.25);
}

#[test]
fn classify_before_training_is_an_error() {
    let nb = NaiveBayes::new();
    assert_eq!(
        nb.classify(&doc(&["anything"])),
        Err(ClassifyError::UndefinedPrior)
    );
    assert_eq!(nb.classify(&doc(&[])), Err(ClassifyError::UndefinedPrior));
}

#[test]
fn training_after_a_failed_classification_still_works() {
    let mut nb = NaiveBayes::new();
    assert!(nb.classify(&doc(&["x"])).is_err());
    nb.train(&doc(&["x"]), "only");
    assert_eq!(nb.classify(&doc(&["x"])).unwrap(), "only");
}

#[test]
fn default_matches_new() {
    let nb = NaiveBayes::default();
    assert_eq!(nb.prior("spam"), None);
    assert!(nb.classify(&doc(&[])).is_err());
}

#[test]
fn larger_vocabulary_bias_is_preserved() {
    // A document of mostly out-of-vocabulary words is scored on the
    // in-vocabulary words alone.
    let mut nb = NaiveBayes::new();
    nb.train(&doc(&["alpha", "beta"]), "first");
    nb.train(&doc(&["gamma"]), "second");
    assert_eq!(
        nb.classify(&doc(&["alpha", "unknown1", "unknown2"])).unwrap(),
        "first"
    );
}
