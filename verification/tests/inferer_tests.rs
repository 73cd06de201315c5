use naive_langguesser::inferer::{calculate_log_space_probability, Inferer, LogScore};
use naive_langguesser::models::sigma::{Sigma, SigmaType};
use naive_langguesser::models::text_model::TextModel;
use naive_langguesser::smoothing::SmoothingType;
use naive_langguesser::train_probability_model;
use naive_langguesser::utils::sort_by_second_element;

#[test]
fn test_end_to_end_classification() {
    let sigma: Sigma = Sigma::new(None, SigmaType::Test);
    let x = train_probability_model(&sigma, 1, &SmoothingType::NoSmoothing, "x", "aaaa").unwrap();
    let y = train_probability_model(&sigma, 1, &SmoothingType::NoSmoothing, "y", "bbbb").unwrap();
    let inferer = Inferer::from_models(vec![x, y], 1, false);
    let mut unclassified = TextModel::new(1, &sigma).unwrap();
    unclassified.extend("aaaa");
    let ranked = inferer.infer(&unclassified).unwrap();
    assert_eq!(2, ranked.len());
    assert_eq!("x", ranked[0].0);
    assert_eq!("y", ranked[1].0);
}

#[test]
fn test_parallel_successive_equivalence() {
    let sigma: Sigma = Sigma::new(None, SigmaType::Test);
    let x = train_probability_model(&sigma, 1, &SmoothingType::NoSmoothing, "x", "aabb").unwrap();
    let y = train_probability_model(&sigma, 1, &SmoothingType::NoSmoothing, "y", "abbb").unwrap();
    let mut unclassified = TextModel::new(1, &sigma).unwrap();
    unclassified.extend("aab");
    let ngrams = unclassified.string_ngrams(1);

    // successive order: x then y
    let sx = calculate_log_space_probability(&x, &ngrams).unwrap();
    let sy = calculate_log_space_probability(&y, &ngrams).unwrap();
    let successive = sort_by_second_element(vec![
        ("x".to_string(), sx),
        ("y".to_string(), sy),
    ])
    .unwrap();

    // a parallel run collects the same pairs, here arriving in the other order
    let parallel = sort_by_second_element(vec![
        ("y".to_string(), sy),
        ("x".to_string(), sx),
    ])
    .unwrap();

    let mut set_a: Vec<(String, LogScore)> = successive.clone();
    let mut set_b: Vec<(String, LogScore)> = parallel.clone();
    set_a.sort_by(|p, q| p.0.cmp(&q.0));
    set_b.sort_by(|p, q| p.0.cmp(&q.0));
    assert_eq!(set_a, set_b);
}

#[test]
fn test_unknown_ngram_is_error() {
    let sigma: Sigma = Sigma::new(None, SigmaType::Test);
    let x = train_probability_model(&sigma, 1, &SmoothingType::NoSmoothing, "x", "aaaa").unwrap();
    // a model trained over {a, b, c} knows every unigram of the alphabet,
    // but not n-grams of another width
    let unknown = vec!["zz".to_string()];
    assert!(calculate_log_space_probability(&x, &unknown).is_err());
}

#[test]
fn test_log_score_values() {
    let sigma: Sigma = Sigma::new(None, SigmaType::Test);
    // all mass on 'a': every n-gram of "aaaa" has probability one, log zero
    let x = train_probability_model(&sigma, 1, &SmoothingType::NoSmoothing, "x", "aaaa").unwrap();
    let ngrams = vec!["a".to_string(), "a".to_string()];
    assert_eq!(LogScore::Val(0), calculate_log_space_probability(&x, &ngrams).unwrap());
    // half the mass on 'a': each 'a' contributes the binary log of 1/2
    let h = train_probability_model(&sigma, 1, &SmoothingType::NoSmoothing, "h", "ab").unwrap();
    assert_eq!(LogScore::Val(-2), calculate_log_space_probability(&h, &ngrams).unwrap());
    // an n-gram of probability zero drives the score to minus infinity
    let ngrams_c = vec!["c".to_string()];
    assert_eq!(LogScore::NegInf, calculate_log_space_probability(&x, &ngrams_c).unwrap());
}
