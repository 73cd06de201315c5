use naive_langguesser::models::sigma::{NGramExt, Sigma, SigmaType};
use naive_langguesser::models::symbol::Symbol;

#[test]
fn test_symbol1() {
    let lhs = Symbol::from_u8(97);
    let rhs = Symbol::from_u8(97);
    assert_eq!(lhs, rhs);
}

#[test]
fn test_symbol2() {
    let lhs = Symbol::from_u8(97);
    let rhs = Symbol::from_u8(98);
    assert_ne!(lhs, rhs);
}

#[test]
fn sigma_test_get_unigram_features() {
    let sigma: Sigma = Sigma::new(None, SigmaType::Test);
    let mut ngrams = sigma.ngrams(1);
    let mut result: Vec<String> = Vec::new();
    result.push(String::from("a"));
    result.push(String::from("b"));
    result.push(String::from("c"));
    ngrams.sort();
    result.sort();
    assert_eq!(result, ngrams);
}

#[test]
fn sigma_test_get_bigram_features() {
    let sigma: Sigma = Sigma::new(None, SigmaType::Test);
    let mut ngrams = sigma.ngrams(2);
    let mut result: Vec<String> = Vec::new();
    result.push(String::from("aa"));
    result.push(String::from("ab"));
    result.push(String::from("ac"));
    result.push(String::from("ba"));
    result.push(String::from("bb"));
    result.push(String::from("bc"));
    result.push(String::from("ca"));
    result.push(String::from("cb"));
    result.push(String::from("cc"));
    ngrams.sort();
    result.sort();
    assert_eq!(result, ngrams);
}

#[test]
fn sigma_test_get_threegram_features() {
    let sigma: Sigma = Sigma::new(None, SigmaType::Test);
    let mut ngrams = sigma.ngrams(3);
    let mut result: Vec<String> = Vec::new();
    result.push(String::from("aaa"));
    result.push(String::from("aab"));
    result.push(String::from("aac"));
    result.push(String::from("cbc"));
    result.push(String::from("bcc"));
    result.push(String::from("bbc"));
    result.push(String::from("bba"));
    result.push(String::from("acc"));
    result.push(String::from("bbb"));
    result.push(String::from("bab"));
    result.push(String::from("abb"));
    result.push(String::from("aca"));
    result.push(String::from("baa"));
    result.push(String::from("ccc"));
    result.push(String::from("cca"));
    result.push(String::from("cba"));
    result.push(String::from("ccb"));
    result.push(String::from("aba"));
    result.push(String::from("bcb"));
    result.push(String::from("abc"));
    result.push(String::from("cac"));
    result.push(String::from("cbb"));
    result.push(String::from("caa"));
    result.push(String::from("bca"));
    result.push(String::from("cab"));
    result.push(String::from("bac"));
    result.push(String::from("acb"));
    ngrams.sort();
    result.sort();
    assert_eq!(result, ngrams);
}
