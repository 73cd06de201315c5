use naive_langguesser::models::count_model::CountModel;
use naive_langguesser::models::ngram_model::NGramModel;
use naive_langguesser::models::sigma::{Sigma, SigmaType};
use naive_langguesser::utils::get_probability;

#[test]
fn test_unknown_key_is_error() {
    let keys: Vec<String> = vec!["a".to_string()];
    let mut model = NGramModel::from_ngrams(&keys).unwrap();
    assert!(model.add_ngram("z").is_err());
    assert!(model.add_ngram("a").is_ok());
}

#[test]
fn test_count_model_length_out_of_range_is_error() {
    let sigma: Sigma = Sigma::new(None, SigmaType::Test);
    let mut count_model = CountModel::from_sigma(&sigma, 1).unwrap();
    assert!(count_model.count_ngrams(&vec!["aa".to_string()], 2).is_err());
    assert!(count_model.count_ngrams(&vec!["a".to_string()], 0).is_err());
}

#[test]
fn test_get_probability_zero_denominator_is_error() {
    assert!(get_probability(1, 0).is_err());
    let p = get_probability(1, 2).unwrap();
    assert_eq!(1, p.num);
    assert_eq!(2, p.den);
}
