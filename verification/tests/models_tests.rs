use naive_langguesser::models::sigma::{Sigma, SigmaType};
use naive_langguesser::models::symbol::char_width;
use naive_langguesser::models::{symbol_offsets, NGramExt, SymbolExt};

#[test]
fn mod_test_get_unigram_features() {
    let sigma: Sigma = Sigma::new(None, SigmaType::Test);
    let mut ngrams = sigma.string_ngrams(1);
    let mut result: Vec<String> = Vec::new();
    result.push(String::from("a"));
    result.push(String::from("b"));
    result.push(String::from("c"));
    ngrams.sort();
    result.sort();
    assert_eq!(result, ngrams);
}

#[test]
fn mod_test_get_bigram_features() {
    let sigma: Sigma = Sigma::new(None, SigmaType::Test);
    let mut ngrams = sigma.string_ngrams(2);
    let mut result: Vec<String> = Vec::new();
    result.push(String::from("aa"));
    result.push(String::from("ab"));
    result.push(String::from("ac"));
    result.push(String::from("ba"));
    result.push(String::from("bb"));
    result.push(String::from("bc"));
    result.push(String::from("ca"));
    result.push(String::from("cb"));
    result.push(String::from("cc"));
    ngrams.sort();
    result.sort();
    assert_eq!(result, ngrams);
}

#[test]
fn mod_test_get_threegram_features() {
    let sigma: Sigma = Sigma::new(None, SigmaType::Test);
    let mut ngrams = sigma.string_ngrams(3);
    let mut result: Vec<String> = Vec::new();
    result.push(String::from("aaa"));
    result.push(String::from("aab"));
    result.push(String::from("aac"));
    result.push(String::from("cbc"));
    result.push(String::from("bcc"));
    result.push(String::from("bbc"));
    result.push(String::from("bba"));
    result.push(String::from("acc"));
    result.push(String::from("bbb"));
    result.push(String::from("bab"));
    result.push(String::from("abb"));
    result.push(String::from("aca"));
    result.push(String::from("baa"));
    result.push(String::from("ccc"));
    result.push(String::from("cca"));
    result.push(String::from("cba"));
    result.push(String::from("ccb"));
    result.push(String::from("aba"));
    result.push(String::from("bcb"));
    result.push(String::from("abc"));
    result.push(String::from("cac"));
    result.push(String::from("cbb"));
    result.push(String::from("caa"));
    result.push(String::from("bca"));
    result.push(String::from("cab"));
    result.push(String::from("bac"));
    result.push(String::from("acb"));
    ngrams.sort();
    result.sort();
    assert_eq!(result, ngrams);
}

static CORRECT_CHAR_WIDTH: [u8; 256] = [
    1, 1, 1, 1, 1, 1, 1, 1, 1, 1, 1, 1, 1, 1, 1, 1, 1, 1, 1, 1, 1, 1, 1, 1, 1, 1, 1, 1, 1, 1,
    1, 1, 1, 1, 1, 1, 1, 1, 1, 1, 1, 1, 1, 1, 1, 1, 1, 1, 1, 1, 1, 1, 1, 1, 1, 1, 1, 1, 1, 1,
    1, 1, 1, 1, 1, 1, 1, 1, 1, 1, 1, 1, 1, 1, 1, 1, 1, 1, 1, 1, 1, 1, 1, 1, 1, 1, 1, 1, 1, 1,
    1, 1, 1, 1, 1, 1, 1, 1, 1, 1, 1, 1, 1, 1, 1, 1, 1, 1, 1, 1, 1, 1, 1, 1, 1, 1, 1, 1, 1, 1,
    1, 1, 1, 1, 1, 1, 1, 1, 0, 0, 0, 0, 0, 0, 0, 0, 0, 0, 0, 0, 0, 0, 0, 0, 0, 0, 0, 0, 0, 0,
    0, 0, 0, 0, 0, 0, 0, 0, 0, 0, 0, 0, 0, 0, 0, 0, 0, 0, 0, 0, 0, 0, 0, 0, 0, 0, 0, 0, 0, 0,
    0, 0, 0, 0, 0, 0, 0, 0, 0, 0, 0, 0, 0, 0, 2, 2, 2, 2, 2, 2, 2, 2, 2, 2, 2, 2, 2, 2, 2, 2,
    2, 2, 2, 2, 2, 2, 2, 2, 2, 2, 2, 2, 2, 2, 3, 3, 3, 3, 3, 3, 3, 3, 3, 3, 3, 3, 3, 3, 3, 3,
    4, 4, 4, 4, 4, 0, 0, 0, 0, 0, 0, 0, 0, 0, 0, 0,
];

#[test]
fn mod_test_char_width() {
    for (i, expected_width) in CORRECT_CHAR_WIDTH.iter().enumerate() {
        if *expected_width > 0 {
            assert_eq!(char_width(i as u8), *expected_width as usize);
        }
    }
}

#[test]
fn mod_test_unigrams() {
    assert_eq!("".get_symbols().next(), None);
    let text = "ζoobαr 💖";
    let mut ngrams = text.get_symbols();
    assert_eq!(ngrams.next(), Some("ζ"));
    assert_eq!(ngrams.next(), Some("o"));
    assert_eq!(ngrams.next(), Some("o"));
    assert_eq!(ngrams.next(), Some("b"));
    assert_eq!(ngrams.next(), Some("α"));
    assert_eq!(ngrams.next(), Some("r"));
    assert_eq!(ngrams.next(), Some(" "));
    assert_eq!(ngrams.next(), Some("💖"));
    assert_eq!(ngrams.next(), None);
}

#[test]
fn test_symbol_offsets() {
    // "ζ" is two bytes, "💖" four; the offsets step by each symbol's width
    let mut offsets = symbol_offsets("ζo💖");
    assert_eq!(offsets.next(), Some(0));
    assert_eq!(offsets.next(), Some(2));
    assert_eq!(offsets.next(), Some(3));
    assert_eq!(offsets.next(), None);
    let mut spans = "ζo💖".get_symbols();
    assert_eq!(spans.next_symbol(), Some((0, 2)));
    assert_eq!(spans.next_symbol(), Some((2, 3)));
    assert_eq!(spans.next_symbol(), Some((3, 7)));
    assert_eq!(spans.next_symbol(), None);
}
