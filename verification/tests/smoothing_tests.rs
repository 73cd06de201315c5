use naive_langguesser::models::ngram_model::NGramModel;
use naive_langguesser::models::Ratio;
use naive_langguesser::smoothing::{smoothing, SmoothingType};

fn as_f64(r: Ratio) -> f64 {
    r.num as f64 / r.den as f64
}

fn model_with_counts(counts: &[(&str, usize)]) -> NGramModel {
    let keys: Vec<String> = counts.iter().map(|(k, _)| k.to_string()).collect();
    let mut model = NGramModel::from_ngrams(&keys).unwrap();
    for (key, count) in counts {
        for _ in 0..*count {
            model.add_ngram(key).unwrap();
        }
    }
    model
}

#[test]
fn test_witten_bell_smoothing1() {
    let mut model = model_with_counts(&[("a", 2), ("b", 2), ("c", 0)]);
    smoothing(&mut model, &SmoothingType::WittenBellSmoothing).unwrap();
    assert_eq!(1.3333333333333333, as_f64(model.get_ngram_count("a").unwrap()));
    assert_eq!(1.3333333333333333, as_f64(model.get_ngram_count("b").unwrap()));
    assert_eq!(1.3333333333333333, as_f64(model.get_ngram_count("c").unwrap()));
}

#[test]
fn test_witten_bell_smoothing2() {
    let mut model = model_with_counts(&[("a", 1), ("b", 1), ("c", 1)]);
    smoothing(&mut model, &SmoothingType::WittenBellSmoothing).unwrap();
    assert_eq!(1.0000000000000000, as_f64(model.get_ngram_count("a").unwrap()));
    assert_eq!(1.0000000000000000, as_f64(model.get_ngram_count("b").unwrap()));
    assert_eq!(1.0000000000000000, as_f64(model.get_ngram_count("c").unwrap()));
}

#[test]
fn test_witten_bell_smoothing3() {
    let mut model = model_with_counts(&[("a", 0), ("b", 0), ("c", 0)]);
    smoothing(&mut model, &SmoothingType::WittenBellSmoothing).unwrap();
    assert_eq!(0.0000000000000000, as_f64(model.get_ngram_count("a").unwrap()));
    assert_eq!(0.0000000000000000, as_f64(model.get_ngram_count("b").unwrap()));
    assert_eq!(0.0000000000000000, as_f64(model.get_ngram_count("c").unwrap()));
}

#[test]
fn test_add_one_smoothing1() {
    let mut model = model_with_counts(&[("a", 2), ("b", 2), ("c", 0)]);
    smoothing(&mut model, &SmoothingType::AddOneSmoothing).unwrap();
    assert_eq!(1.7142857142857142, as_f64(model.get_ngram_count("a").unwrap()));
    assert_eq!(1.7142857142857142, as_f64(model.get_ngram_count("b").unwrap()));
    assert_eq!(0.5714285714285714, as_f64(model.get_ngram_count("c").unwrap()));
}

#[test]
fn test_add_one_smoothing2() {
    let mut model = model_with_counts(&[("a", 0), ("b", 0), ("c", 0)]);
    smoothing(&mut model, &SmoothingType::AddOneSmoothing).unwrap();
    assert_eq!(0.0000000000000000, as_f64(model.get_ngram_count("a").unwrap()));
    assert_eq!(0.0000000000000000, as_f64(model.get_ngram_count("b").unwrap()));
    assert_eq!(0.0000000000000000, as_f64(model.get_ngram_count("c").unwrap()));
}

#[test]
fn test_add_one_smoothing3() {
    let mut model = model_with_counts(&[("a", 1), ("b", 1), ("c", 1)]);
    smoothing(&mut model, &SmoothingType::AddOneSmoothing).unwrap();
    assert_eq!(1.0000000000000000, as_f64(model.get_ngram_count("a").unwrap()));
    assert_eq!(1.0000000000000000, as_f64(model.get_ngram_count("b").unwrap()));
    assert_eq!(1.0000000000000000, as_f64(model.get_ngram_count("c").unwrap()));
}
