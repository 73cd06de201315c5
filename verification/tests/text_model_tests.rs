use naive_langguesser::models::sigma::{Sigma, SigmaType};
use naive_langguesser::models::symbol::Symbol;
use naive_langguesser::models::text_model::{Confix, TextModel};

#[test]
fn test_confix() {
    let marker_symbol: Symbol = Symbol::from_u8(35);
    let confix = Confix::new(&marker_symbol, 3);
    let mut symbols: Vec<Symbol> = Vec::new();
    symbols.push(Symbol::from_u8(97));
    let mut result: Vec<Symbol> = Vec::new();
    let formated: Vec<Symbol> = confix.add_to_symbols(&symbols);
    result.push(Symbol::from_u8(35));
    result.push(Symbol::from_u8(35));
    result.push(Symbol::from_u8(35));
    result.push(Symbol::from_u8(97));
    result.push(Symbol::from_u8(35));
    result.push(Symbol::from_u8(35));
    result.push(Symbol::from_u8(35));
    assert_eq!(result, formated);
}

#[test]
fn test_text_model_ngram_iterator() {
    let input = String::from("abc💖");
    let set_marker: Option<u8> = None;
    let sigma: Sigma = Sigma::new(set_marker, SigmaType::AlphaNum);
    let ngram_length: usize = 2;
    let mut text_model = TextModel::new(ngram_length, &sigma).unwrap();
    text_model.extend(&input[..]);
    let mut iter = text_model.ngram_iter(ngram_length);
    assert_eq!(Some(String::from("ab")), iter.next());
    assert_eq!(Some(String::from("bc")), iter.next());
    assert_eq!(None, iter.next());
}
