use naive_langguesser::models::symbol::{char_width, Symbol, SymbolExt, SymbolIterator};

#[test]
fn test_symbol_extend() {
    assert_eq!("".get_symbols().next(), None);
    let text = "ζoobαr 💖";
    let mut ngrams: SymbolIterator = text.get_symbols();
    assert_eq!(ngrams.next(), Some(Symbol::from_str("ζ")));
    assert_eq!(ngrams.next(), Some(Symbol::from_str("o")));
    assert_eq!(ngrams.next(), Some(Symbol::from_str("o")));
    assert_eq!(ngrams.next(), Some(Symbol::from_str("b")));
    assert_eq!(ngrams.next(), Some(Symbol::from_str("α")));
    assert_eq!(ngrams.next(), Some(Symbol::from_str("r")));
    assert_eq!(ngrams.next(), Some(Symbol::from_str(" ")));
    assert_eq!(ngrams.next(), Some(Symbol::from_str("💖")));
    assert_eq!(ngrams.next(), None);
}

static CORRECT_CHAR_WIDTH: [u8; 256] = [
    1, 1, 1, 1, 1, 1, 1, 1, 1, 1, 1, 1, 1, 1, 1, 1, 1, 1, 1, 1, 1, 1, 1, 1, 1, 1, 1, 1, 1, 1,
    1, 1, 1, 1, 1, 1, 1, 1, 1, 1, 1, 1, 1, 1, 1, 1, 1, 1, 1, 1, 1, 1, 1, 1, 1, 1, 1, 1, 1, 1,
    1, 1, 1, 1, 1, 1, 1, 1, 1, 1, 1, 1, 1, 1, 1, 1, 1, 1, 1, 1, 1, 1, 1, 1, 1, 1, 1, 1, 1, 1,
    1, 1, 1, 1, 1, 1, 1, 1, 1, 1, 1, 1, 1, 1, 1, 1, 1, 1, 1, 1, 1, 1, 1, 1, 1, 1, 1, 1, 1, 1,
    1, 1, 1, 1, 1, 1, 1, 1, 0, 0, 0, 0, 0, 0, 0, 0, 0, 0, 0, 0, 0, 0, 0, 0, 0, 0, 0, 0, 0, 0,
    0, 0, 0, 0, 0, 0, 0, 0, 0, 0, 0, 0, 0, 0, 0, 0, 0, 0, 0, 0, 0, 0, 0, 0, 0, 0, 0, 0, 0, 0,
    0, 0, 0, 0, 0, 0, 0, 0, 0, 0, 0, 0, 0, 0, 2, 2, 2, 2, 2, 2, 2, 2, 2, 2, 2, 2, 2, 2, 2, 2,
    2, 2, 2, 2, 2, 2, 2, 2, 2, 2, 2, 2, 2, 2, 3, 3, 3, 3, 3, 3, 3, 3, 3, 3, 3, 3, 3, 3, 3, 3,
    4, 4, 4, 4, 4, 0, 0, 0, 0, 0, 0, 0, 0, 0, 0, 0,
];

#[test]
fn symbol_test_char_width() {
    for (i, expected_width) in CORRECT_CHAR_WIDTH.iter().enumerate() {
        if *expected_width > 0 {
            assert_eq!(char_width(i as u8), *expected_width as usize);
        }
    }
}
