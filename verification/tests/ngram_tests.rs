use naive_langguesser::ngram::{char_offsets, NgramExt};

#[test]
fn ngram_test_unigrams() {
    assert_eq!("".char_ngrams(1).next(), None);
    let text = "ζoobαr 💖";
    let mut ngrams = text.char_ngrams(1);
    assert_eq!(ngrams.next(), Some(String::from("ζ")));
    assert_eq!(ngrams.next(), Some(String::from("o")));
    assert_eq!(ngrams.next(), Some(String::from("o")));
    assert_eq!(ngrams.next(), Some(String::from("b")));
    assert_eq!(ngrams.next(), Some(String::from("α")));
    assert_eq!(ngrams.next(), Some(String::from("r")));
    assert_eq!(ngrams.next(), Some(String::from(" ")));
    assert_eq!(ngrams.next(), Some(String::from("💖")));
    assert_eq!(ngrams.next(), None);
}

#[test]
fn test_bigrams() {
    assert_eq!("".char_ngrams(2).next(), None);
    let text = "ζoobαr 💖";
    let mut ngrams = text.char_ngrams(2);
    assert_eq!(ngrams.next(), Some(String::from("ζo")));
    assert_eq!(ngrams.next(), Some(String::from("oo")));
    assert_eq!(ngrams.next(), Some(String::from("ob")));
    assert_eq!(ngrams.next(), Some(String::from("bα")));
    assert_eq!(ngrams.next(), Some(String::from("αr")));
    assert_eq!(ngrams.next(), Some(String::from("r ")));
    assert_eq!(ngrams.next(), Some(String::from(" 💖")));
    assert_eq!(ngrams.next(), None);
}

#[test]
fn test_trigrams() {
    assert_eq!("".char_ngrams(3).next(), None);
    let text = "ζoobαr 💖";
    let mut ngrams = text.char_ngrams(3);
    assert_eq!(ngrams.next(), Some(String::from("ζoo")));
    assert_eq!(ngrams.next(), Some(String::from("oob")));
    assert_eq!(ngrams.next(), Some(String::from("obα")));
    assert_eq!(ngrams.next(), Some(String::from("bαr")));
    assert_eq!(ngrams.next(), Some(String::from("αr ")));
    assert_eq!(ngrams.next(), Some(String::from("r 💖")));
    assert_eq!(ngrams.next(), None);
}

#[test]
fn test_char_offsets() {
    let mut offsets = char_offsets("ζoobαr 💖");
    assert_eq!(offsets.next(), Some(0));
    assert_eq!(offsets.next(), Some(2));
    assert_eq!(offsets.next(), Some(3));
    assert_eq!(offsets.next(), Some(4));
    assert_eq!(offsets.next(), Some(5));
    assert_eq!(offsets.next(), Some(7));
    assert_eq!(offsets.next(), Some(8));
    assert_eq!(offsets.next(), Some(9));
    assert_eq!(offsets.next(), None);
}

#[test]
fn test_char_ngram_indices() {
    let mut it = "abc".char_ngram_indices(2);
    assert_eq!(it.next(), Some((0, String::from("ab"))));
    assert_eq!(it.next(), Some((1, String::from("bc"))));
    assert_eq!(it.next(), None);
}
