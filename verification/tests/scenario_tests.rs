use naive_langguesser::models::count_model::CountModel;
use naive_langguesser::models::ngram_model::NGramModel;
use naive_langguesser::smoothing::smoothing;
use naive_langguesser::models::probability_model::ProbabilityModel;
use naive_langguesser::models::sigma::{Sigma, SigmaType};
use naive_langguesser::models::text_model::TextModel;
use naive_langguesser::models::Ratio;
use naive_langguesser::smoothing::SmoothingType;

fn as_f64(r: Ratio) -> f64 {
    r.num as f64 / r.den as f64
}

#[test]
fn test_unigram_training_scenario() {
    // alphabet {a, b, c}, no marker, text "aabcbaa"
    let sigma: Sigma = Sigma::new(None, SigmaType::Test);
    let mut text_model = TextModel::new(1, &sigma).unwrap();
    text_model.extend("aabcbaa");
    let mut count_model = CountModel::from_sigma(&sigma, 1).unwrap();
    count_model.count_ngrams_from_text_model(&text_model).unwrap();
    let unigrams = count_model.get_ngram_model(1).unwrap();
    assert_eq!(4.0, as_f64(unigrams.get_ngram_count("a").unwrap()));
    assert_eq!(2.0, as_f64(unigrams.get_ngram_count("b").unwrap()));
    assert_eq!(1.0, as_f64(unigrams.get_ngram_count("c").unwrap()));
    let mut probability_model = ProbabilityModel::from_name("scenario").unwrap();
    probability_model.add_unigram_probabilities(&count_model).unwrap();
    assert_eq!(4.0 / 7.0, as_f64(probability_model.get("a").unwrap()));
    assert_eq!(2.0 / 7.0, as_f64(probability_model.get("b").unwrap()));
    assert_eq!(1.0 / 7.0, as_f64(probability_model.get("c").unwrap()));
}

#[test]
fn test_padded_bigram_training_scenario() {
    // alphabet {a, b, c}, marker on, ngram_length = 2, text "aabcbaa";
    // the padded text is "##aabcbaa##"
    let sigma: Sigma = Sigma::new(Some(35), SigmaType::Test);
    let mut text_model = TextModel::new(2, &sigma).unwrap();
    text_model.extend("aabcbaa");
    let mut count_model = CountModel::from_sigma(&sigma, 2).unwrap();
    count_model.count_ngrams_from_text_model(&text_model).unwrap();
    let bigrams = count_model.get_ngram_model(2).unwrap();
    assert_eq!(2.0, as_f64(bigrams.get_ngram_count("##").unwrap()));
    assert_eq!(2.0, as_f64(bigrams.get_ngram_count("aa").unwrap()));
    assert_eq!(1.0, as_f64(bigrams.get_ngram_count("a#").unwrap()));
    assert_eq!(1.0, as_f64(bigrams.get_ngram_count("#a").unwrap()));
    // conditional probability of "aa" given "a": count("aa") / count("a")
    let unigrams = count_model.get_ngram_model(1).unwrap();
    let count_a = unigrams.get_ngram_count("a").unwrap();
    let mut probability_model = ProbabilityModel::from_name("scenario").unwrap();
    probability_model.add_unigram_probabilities(&count_model).unwrap();
    probability_model.add_ngram_probabilities(&count_model).unwrap();
    let p_aa = probability_model.get("aa").unwrap();
    assert_eq!(2.0 / as_f64(count_a), as_f64(p_aa));
}

#[test]
fn test_witten_bell_boundary_scenarios() {
    // all counts zero: nothing was seen, so smoothing is a no-op
    let keys: Vec<String> = vec!["a".to_string(), "b".to_string()];
    let mut untouched = NGramModel::from_ngrams(&keys).unwrap();
    smoothing(&mut untouched, &SmoothingType::WittenBellSmoothing).unwrap();
    assert_eq!(0.0, as_f64(untouched.get_ngram_count("a").unwrap()));
    assert_eq!(0.0, as_f64(untouched.get_ngram_count("b").unwrap()));
    // no unseen n-gram: there is nothing to redistribute to
    let mut saturated = NGramModel::from_ngrams(&keys).unwrap();
    saturated.add_ngram("a").unwrap();
    saturated.add_ngram("b").unwrap();
    smoothing(&mut saturated, &SmoothingType::WittenBellSmoothing).unwrap();
    assert_eq!(1.0, as_f64(saturated.get_ngram_count("a").unwrap()));
    assert_eq!(1.0, as_f64(saturated.get_ngram_count("b").unwrap()));
}

#[test]
fn test_add_one_keeps_unseen_positive() {
    let keys: Vec<String> = vec!["a".to_string(), "b".to_string(), "c".to_string()];
    let mut model = NGramModel::from_ngrams(&keys).unwrap();
    model.add_ngram("a").unwrap();
    smoothing(&mut model, &SmoothingType::AddOneSmoothing).unwrap();
    let unseen = model.get_ngram_count("c").unwrap();
    assert!(unseen.num > 0);
    assert!(as_f64(unseen) > 0.0);
}

#[test]
fn test_probability_normalization() {
    // unsmoothed conditional probabilities of all extensions of a prefix
    // sum to exactly one: shared denominator, numerators summing to it
    let sigma: Sigma = Sigma::new(Some(35), SigmaType::Test);
    let mut text_model = TextModel::new(2, &sigma).unwrap();
    text_model.extend("aabcbaa");
    let mut count_model = CountModel::from_sigma(&sigma, 2).unwrap();
    count_model.count_ngrams_from_text_model(&text_model).unwrap();
    let mut probability_model = ProbabilityModel::from_name("scenario").unwrap();
    probability_model.add_unigram_probabilities(&count_model).unwrap();
    probability_model.add_ngram_probabilities(&count_model).unwrap();
    let extensions = ["aa", "ab", "ac", "a#"];
    let mut numerator_sum: u128 = 0;
    let mut denominator: u128 = 0;
    for key in extensions {
        let p = probability_model.get(key).unwrap();
        numerator_sum += p.num;
        denominator = p.den;
    }
    assert_eq!(numerator_sum, denominator);
    let total: f64 = extensions
        .iter()
        .map(|key| {
            let p = probability_model.get(key).unwrap();
            p.num as f64 / p.den as f64
        })
        .sum();
    assert_eq!(1.0, total);
}
