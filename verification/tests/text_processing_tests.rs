use naive_langguesser::text_processing::{
    get_ngrams, get_sigma, get_total_list_of_ngrams, preprocess_text, SigmaID,
};

#[test]
fn test_normalise_text() {
    let sigma = "abcdefghijklmnopqrstuvwxyz0123456789".to_string();
    let raw_text = String::from("ß;b--a💖\t");
    assert_eq!(
        String::from("ba"),
        preprocess_text(&sigma[..], &raw_text[..], None, 1).unwrap()
    );
}

#[test]
fn test_ngram_getter() {
    let text: String = "abc".to_string();
    let unigram_gold = vec!["a", "b", "c"];
    assert_eq!(unigram_gold, get_ngrams(&text[..], 1));
    let bigram_gold = vec!["ab", "bc"];
    assert_eq!(bigram_gold, get_ngrams(&text[..], 2));
    let trigram_gold = vec!["abc"];
    assert_eq!(trigram_gold, get_ngrams(&text[..], 3));
}

#[test]
fn test_get_total_2grams() {
    let sigma = "a💖".to_string();
    let n_gram_length: usize = 2;
    let ngrams = get_total_list_of_ngrams(&sigma[..], n_gram_length).unwrap();
    assert_eq!(true, ngrams.contains(&String::from("aa")));
    assert_eq!(true, ngrams.contains(&String::from("a💖")));
    assert_eq!(true, ngrams.contains(&String::from("💖a")));
    assert_eq!(true, ngrams.contains(&String::from("💖💖")));
}

#[test]
fn textproc_test_get_threegram_features() {
    let sigma = "ab".to_string();
    let n_gram_length: usize = 3;
    let ngrams = get_total_list_of_ngrams(&sigma[..], n_gram_length).unwrap();
    assert_eq!(true, ngrams.contains(&String::from("aaa")));
    assert_eq!(true, ngrams.contains(&String::from("aab")));
    assert_eq!(true, ngrams.contains(&String::from("aba")));
    assert_eq!(true, ngrams.contains(&String::from("abb")));
    assert_eq!(true, ngrams.contains(&String::from("baa")));
    assert_eq!(true, ngrams.contains(&String::from("bab")));
    assert_eq!(true, ngrams.contains(&String::from("bba")));
    assert_eq!(true, ngrams.contains(&String::from("bbb")));
}

#[test]
fn test_preprocess_with_marker() {
    let sigma = get_sigma(SigmaID::Test, Some("#"));
    assert!(sigma.ends_with('#'));
    let padded = preprocess_text("abc", "xaycz", Some("#"), 2).unwrap();
    assert_eq!("##ac##", padded);
}

#[test]
fn test_preprocess_empty_is_error() {
    assert!(preprocess_text("abc", "xyz", None, 1).is_err());
}
