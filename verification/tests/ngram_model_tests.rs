use naive_langguesser::models::ngram_model::NGramModel;
use naive_langguesser::models::sigma::{Sigma, SigmaType};
use naive_langguesser::models::text_model::TextModel;
use naive_langguesser::models::NGramExt;
use naive_langguesser::models::Ratio;

fn as_f64(r: Ratio) -> f64 {
    r.num as f64 / r.den as f64
}

#[test]
fn test_ngram_model1() {
    let set_marker: Option<u8> = Some(35);
    let sigma: Sigma = Sigma::new(set_marker, SigmaType::Test);
    let text = String::from("aabcbaa");
    let ngram_length: usize = 1;
    let mut text_model = TextModel::new(ngram_length, &sigma).unwrap();
    text_model.extend(&text[..]);
    let ngrams = text_model.string_ngrams(ngram_length);
    let mut ngram_model = NGramModel::from_ngrams(&sigma.string_ngrams(ngram_length)).unwrap();
    ngram_model.add_ngrams(&ngrams).unwrap();
    assert_eq!(4.0, as_f64(ngram_model.get_ngram_count("a").unwrap()));
    assert_eq!(2.0, as_f64(ngram_model.get_ngram_count("b").unwrap()));
    assert_eq!(1.0, as_f64(ngram_model.get_ngram_count("c").unwrap()));
    assert_eq!(2.0, as_f64(ngram_model.get_ngram_count("#").unwrap()));
}

#[test]
fn test_ngram_model2() {
    let set_marker: Option<u8> = Some(35);
    let sigma: Sigma = Sigma::new(set_marker, SigmaType::Test);
    let ngram_length: usize = 1;
    let text = String::from("aabcbaa");
    let mut text_model = TextModel::new(ngram_length, &sigma).unwrap();
    text_model.extend(&text[..]);
    let ngrams = text_model.string_ngrams(ngram_length);
    let mut ngram_model = NGramModel::from_ngrams(&sigma.string_ngrams(ngram_length)).unwrap();
    ngram_model.add_ngrams(&ngrams).unwrap();
    assert_eq!(4.0, as_f64(ngram_model.get_ngram_count("a").unwrap()));
    assert_eq!(2.0, as_f64(ngram_model.get_ngram_count("b").unwrap()));
    assert_eq!(1.0, as_f64(ngram_model.get_ngram_count("c").unwrap()));
    assert_eq!(2.0, as_f64(ngram_model.get_ngram_count("#").unwrap()));
}

#[test]
fn test_ngram_model3() {
    let set_marker: Option<u8> = None;
    let sigma: Sigma = Sigma::new(set_marker, SigmaType::Test);
    let text = String::from("aabcbaa");
    let ngram_length: usize = 2;
    let mut text_model = TextModel::new(ngram_length, &sigma).unwrap();
    text_model.extend(&text[..]);
    let ngrams = text_model.string_ngrams(ngram_length);
    let mut ngram_model = NGramModel::from_ngrams(&sigma.string_ngrams(ngram_length)).unwrap();
    ngram_model.add_ngrams(&ngrams).unwrap();
    assert_eq!(2.0, as_f64(ngram_model.get_ngram_count("aa").unwrap()));
    assert_eq!(1.0, as_f64(ngram_model.get_ngram_count("ab").unwrap()));
    assert_eq!(0.0, as_f64(ngram_model.get_ngram_count("bb").unwrap()));
    assert_eq!(1.0, as_f64(ngram_model.get_ngram_count("ba").unwrap()));
    assert_eq!(1.0, as_f64(ngram_model.get_ngram_count("cb").unwrap()));
    assert_eq!(0.0, as_f64(ngram_model.get_ngram_count("ca").unwrap()));
    assert_eq!(1.0, as_f64(ngram_model.get_ngram_count("bc").unwrap()));
    assert_eq!(0.0, as_f64(ngram_model.get_ngram_count("ac").unwrap()));
}

#[test]
fn test_ngram_model4() {
    let set_marker: Option<u8> = Some(35);
    let sigma: Sigma = Sigma::new(set_marker, SigmaType::Test);
    let text = String::from("aabcbaa");
    let ngram_length: usize = 2;
    let mut text_model = TextModel::new(ngram_length, &sigma).unwrap();
    text_model.extend(&text[..]);
    let ngrams = text_model.string_ngrams(ngram_length);
    let mut ngram_model = NGramModel::from_ngrams(&sigma.string_ngrams(ngram_length)).unwrap();
    ngram_model.add_ngrams(&ngrams).unwrap();
    assert_eq!(2.0, as_f64(ngram_model.get_ngram_count("aa").unwrap()));
    assert_eq!(1.0, as_f64(ngram_model.get_ngram_count("ab").unwrap()));
    assert_eq!(0.0, as_f64(ngram_model.get_ngram_count("bb").unwrap()));
    assert_eq!(1.0, as_f64(ngram_model.get_ngram_count("ba").unwrap()));
    assert_eq!(0.0, as_f64(ngram_model.get_ngram_count("ca").unwrap()));
    assert_eq!(1.0, as_f64(ngram_model.get_ngram_count("cb").unwrap()));
    assert_eq!(0.0, as_f64(ngram_model.get_ngram_count("ac").unwrap()));
    assert_eq!(1.0, as_f64(ngram_model.get_ngram_count("bc").unwrap()));
    assert_eq!(0.0, as_f64(ngram_model.get_ngram_count("cc").unwrap()));
    assert_eq!(2.0, as_f64(ngram_model.get_ngram_count("##").unwrap()));
    assert_eq!(1.0, as_f64(ngram_model.get_ngram_count("#a").unwrap()));
    assert_eq!(0.0, as_f64(ngram_model.get_ngram_count("#b").unwrap()));
    assert_eq!(0.0, as_f64(ngram_model.get_ngram_count("b#").unwrap()));
    assert_eq!(1.0, as_f64(ngram_model.get_ngram_count("a#").unwrap()));
    assert_eq!(0.0, as_f64(ngram_model.get_ngram_count("c#").unwrap()));
    assert_eq!(0.0, as_f64(ngram_model.get_ngram_count("#c").unwrap()));
}

#[test]
fn test_ngram_model5() {
    let set_marker: Option<u8> = None;
    let sigma: Sigma = Sigma::new(set_marker, SigmaType::Test);
    let text = String::from("aabbba");
    let ngram_length: usize = 2;
    let mut text_model = TextModel::new(ngram_length, &sigma).unwrap();
    text_model.extend(&text[..]);
    let ngrams = text_model.string_ngrams(ngram_length);
    let mut ngram_model = NGramModel::from_ngrams(&sigma.string_ngrams(ngram_length)).unwrap();
    ngram_model.add_ngrams(&ngrams).unwrap();
    let count: f64 = as_f64(ngram_model.get_total_ngram_count());
    assert_eq!(5.0, count);
}

#[test]
fn test_ngram_model6() {
    let set_marker: Option<u8> = None;
    let sigma: Sigma = Sigma::new(set_marker, SigmaType::Test);
    let text = String::from("aabbbac");
    let ngram_length: usize = 2;
    let mut text_model = TextModel::new(ngram_length, &sigma).unwrap();
    text_model.extend(&text[..]);
    let ngrams = text_model.string_ngrams(ngram_length);
    let mut ngram_model = NGramModel::from_ngrams(&sigma.string_ngrams(ngram_length)).unwrap();
    ngram_model.add_ngrams(&ngrams).unwrap();
    let count: usize = ngram_model.get_vocabulary_size();
    assert_eq!(9, count);
}

#[test]
fn test_ngram_model7() {
    let set_marker: Option<u8> = None;
    let sigma: Sigma = Sigma::new(set_marker, SigmaType::Test);
    let text = String::from("abbba");
    let ngram_length: usize = 2;
    let mut text_model = TextModel::new(ngram_length, &sigma).unwrap();
    text_model.extend(&text[..]);
    let ngrams = text_model.string_ngrams(ngram_length);
    let mut ngram_model = NGramModel::from_ngrams(&sigma.string_ngrams(ngram_length)).unwrap();
    ngram_model.add_ngrams(&ngrams).unwrap();
    let count: usize = ngram_model.get_seen_type_count();
    assert_eq!(3, count);
}

#[test]
fn test_ngram_model8() {
    let set_marker: Option<u8> = None;
    let sigma: Sigma = Sigma::new(set_marker, SigmaType::Test);
    let text = String::from("abbba");
    let ngram_length: usize = 2;
    let mut text_model = TextModel::new(ngram_length, &sigma).unwrap();
    text_model.extend(&text[..]);
    let ngrams = text_model.string_ngrams(ngram_length);
    let mut ngram_model = NGramModel::from_ngrams(&sigma.string_ngrams(ngram_length)).unwrap();
    ngram_model.add_ngrams(&ngrams).unwrap();
    let count: usize = ngram_model.get_unseen_type_count();
    assert_eq!(6, count);
}
