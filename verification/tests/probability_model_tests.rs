use naive_langguesser::models::count_model::CountModel;
use naive_langguesser::models::probability_model::ProbabilityModel;
use naive_langguesser::models::sigma::{Sigma, SigmaType};
use naive_langguesser::models::text_model::TextModel;
use naive_langguesser::models::Ratio;
use naive_langguesser::smoothing::SmoothingType;

fn as_f64(r: Ratio) -> f64 {
    r.num as f64 / r.den as f64
}

#[test]
fn test_probability_model1() {
    let ngram_length: usize = 1;
    let set_marker: Option<u8> = None;
    let smoothing_type: SmoothingType = SmoothingType::NoSmoothing;
    let sigma: Sigma = Sigma::new(set_marker, SigmaType::AlphaNum);
    let mut text_model = TextModel::new(ngram_length, &sigma).unwrap();
    let mut count_model = CountModel::from_sigma(&sigma, ngram_length).unwrap();
    let mut probability_model = ProbabilityModel::from_name("test").unwrap();
    let raw_text = String::from("aabcbaa\t");
    text_model.extend(&raw_text[..]);
    count_model.count_ngrams_from_text_model(&text_model).unwrap();
    count_model.smooth(&smoothing_type).unwrap();
    probability_model.add_unigram_probabilities(&count_model).unwrap();
    assert_eq!(4.0 / 7.0, as_f64(probability_model.get("a").unwrap()));
    assert_eq!(2.0 / 7.0, as_f64(probability_model.get("b").unwrap()));
    assert_eq!(1.0 / 7.0, as_f64(probability_model.get("c").unwrap()));
}

#[test]
fn test_probability_model2() {
    let ngram_length: usize = 1;
    let set_marker: Option<u8> = Some(35);
    let smoothing_type: SmoothingType = SmoothingType::NoSmoothing;
    let sigma: Sigma = Sigma::new(set_marker, SigmaType::AlphaNum);
    let mut text_model = TextModel::new(ngram_length, &sigma).unwrap();
    let mut count_model = CountModel::from_sigma(&sigma, ngram_length).unwrap();
    let mut probability_model = ProbabilityModel::from_name("test").unwrap();
    let raw_text = String::from("aabcbaa\t");
    text_model.extend(&raw_text[..]);
    count_model.count_ngrams_from_text_model(&text_model).unwrap();
    count_model.smooth(&smoothing_type).unwrap();
    probability_model.add_unigram_probabilities(&count_model).unwrap();
    assert_eq!(4.0 / 9.0, as_f64(probability_model.get("a").unwrap()));
    assert_eq!(2.0 / 9.0, as_f64(probability_model.get("b").unwrap()));
    assert_eq!(1.0 / 9.0, as_f64(probability_model.get("c").unwrap()));
}

#[test]
fn test_probability_model3() {
    let raw_text = String::from("aabcbaa\t");
    let ngram_length: usize = 2;
    let set_marker: Option<u8> = Some(35);
    let sigma: Sigma = Sigma::new(set_marker, SigmaType::AlphaNum);
    let smoothing_type: SmoothingType = SmoothingType::NoSmoothing;
    let mut text_model = TextModel::new(ngram_length, &sigma).unwrap();
    let mut count_model = CountModel::from_sigma(&sigma, ngram_length).unwrap();
    let mut probability_model = ProbabilityModel::from_name("test").unwrap();
    text_model.extend(&raw_text[..]);
    count_model.count_ngrams_from_text_model(&text_model).unwrap();
    count_model.smooth(&smoothing_type).unwrap();
    probability_model.add_unigram_probabilities(&count_model).unwrap();
    probability_model.add_ngram_probabilities(&count_model).unwrap();
    assert_eq!(2.0 / 4.0, as_f64(probability_model.get("aa").unwrap()));
    assert_eq!(1.0 / 4.0, as_f64(probability_model.get("ab").unwrap()));
    assert_eq!(0.0 / 4.0, as_f64(probability_model.get("ac").unwrap()));
    assert_eq!(1.0 / 4.0, as_f64(probability_model.get("a#").unwrap()));
    assert_eq!(0.0 / 2.0, as_f64(probability_model.get("bb").unwrap()));
    assert_eq!(1.0 / 2.0, as_f64(probability_model.get("ba").unwrap()));
    assert_eq!(1.0 / 2.0, as_f64(probability_model.get("bc").unwrap()));
    assert_eq!(0.0 / 2.0, as_f64(probability_model.get("b#").unwrap()));
    assert_eq!(0.0 / 1.0, as_f64(probability_model.get("ca").unwrap()));
    assert_eq!(1.0 / 1.0, as_f64(probability_model.get("cb").unwrap()));
    assert_eq!(0.0 / 1.0, as_f64(probability_model.get("cc").unwrap()));
    assert_eq!(0.0 / 1.0, as_f64(probability_model.get("c#").unwrap()));
    assert_eq!(2.0 / 4.0, as_f64(probability_model.get("##").unwrap()));
    assert_eq!(1.0 / 4.0, as_f64(probability_model.get("#a").unwrap()));
    assert_eq!(0.0 / 4.0, as_f64(probability_model.get("#b").unwrap()));
    assert_eq!(0.0 / 4.0, as_f64(probability_model.get("#c").unwrap()));
}

#[test]
fn test_probability_model5() {
    let path = String::from("./data/models/test.model");
    assert_eq!(
        "test",
        ProbabilityModel::parse_name_from_path(&path[..]).unwrap()
    );
    let path2 = String::from("./data/test.model");
    assert_eq!(
        "test",
        ProbabilityModel::parse_name_from_path(&path2[..]).unwrap()
    );
}

#[test]
fn test_model_round_trip() {
    let raw_text = String::from("aabcbaa");
    let ngram_length: usize = 2;
    let sigma: Sigma = Sigma::new(Some(35), SigmaType::Test);
    let model = naive_langguesser::train_probability_model(
        &sigma,
        ngram_length,
        &SmoothingType::NoSmoothing,
        "test",
        &raw_text[..],
    )
    .unwrap();
    let rendered = model.serialize();
    let content: Vec<char> = rendered.chars().collect();
    let parsed = ProbabilityModel::parse("test", &content).unwrap();
    assert_eq!(model.name, parsed.name);
    assert_eq!(model.model, parsed.model);
}

#[test]
fn test_parse_rejects_illformed_line() {
    let content: Vec<char> = "ab\t3/7\nbad line without tab\n".chars().collect();
    assert!(ProbabilityModel::parse("test", &content).is_err());
    let content2: Vec<char> = "ab\t3x7\n".chars().collect();
    assert!(ProbabilityModel::parse("test", &content2).is_err());
    let content3: Vec<char> = "ab\t1.2.3\n".chars().collect();
    assert!(ProbabilityModel::parse("test", &content3).is_err());
}

#[test]
fn test_parse_accepts_decimal_and_whole_fields() {
    // a decimal field is read exactly: 0.25 is 25 over 100
    let content: Vec<char> = "ab\t0.25\ncd\t3\n".chars().collect();
    let parsed = ProbabilityModel::parse("test", &content).unwrap();
    let p = parsed.get("ab").unwrap();
    assert_eq!(25, p.num);
    assert_eq!(100, p.den);
    let q = parsed.get("cd").unwrap();
    assert_eq!(3, q.num);
    assert_eq!(1, q.den);
}

#[test]
fn test_parse_overwrites_duplicate_keys() {
    let content: Vec<char> = "ab\t1/2\nab\t3/4\n".chars().collect();
    let parsed = ProbabilityModel::parse("test", &content).unwrap();
    let p = parsed.get("ab").unwrap();
    assert_eq!(3, p.num);
    assert_eq!(4, p.den);
    assert_eq!(1, parsed.model.len());
}

#[test]
fn test_parse_name_is_base_name() {
    assert_eq!(
        "english",
        ProbabilityModel::parse_name_from_path("./data/models/alphanum/english.model").unwrap()
    );
    assert!(ProbabilityModel::parse_name_from_path("./data/models/test.txt").is_err());
    assert!(ProbabilityModel::parse_name_from_path("./data/.model").is_err());
}
