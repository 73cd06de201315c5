use naive_langguesser::models::count_model::CountModel;
use naive_langguesser::models::sigma::{Sigma, SigmaType};
use naive_langguesser::models::Ratio;

fn as_f64(r: Ratio) -> f64 {
    r.num as f64 / r.den as f64
}

#[test]
fn test_count_model1() {
    let sigma: Sigma = Sigma::new(None, SigmaType::Test);
    let ngram_length: usize = 2;
    let mut count_model = CountModel::from_sigma(&sigma, ngram_length).unwrap();
    count_model.count_ngrams(&vec!["aa".to_string()], ngram_length).unwrap();
    let ngram_model = count_model.get_ngram_model(ngram_length).unwrap();
    assert_eq!(1.0, as_f64(ngram_model.get_ngram_count("aa").unwrap()));
}

#[test]
fn test_count_model2() {
    let sigma: Sigma = Sigma::new(None, SigmaType::Test);
    let ngram_length: usize = 2;
    let mut count_model = CountModel::from_sigma(&sigma, ngram_length).unwrap();
    let ngrams: Vec<String> = vec!["aa".to_string(), "aa".to_string(), "ab".to_string()];
    count_model.count_ngrams(&ngrams, ngram_length).unwrap();
    let ngram_model = count_model.get_ngram_model(ngram_length).unwrap();
    assert_eq!(2.0, as_f64(ngram_model.get_ngram_count("aa").unwrap()));
    assert_eq!(1.0, as_f64(ngram_model.get_ngram_count("ab").unwrap()));
}
