//! Plain-string text processing: normalisation against a flat alphabet
//! string, boundary padding, and n-gram extraction.

pub mod errors;

use vstd::prelude::*;
use crate::models::char_windows;
use crate::models::ngram_model::{dedup_views, universe};
use crate::models::sigma::singleton_views;
use crate::strutil::{chars_of, chars_to_string};
use crate::text_processing::errors::TextError;

verus! {

/// The available alphabet identifiers.
pub enum SigmaID {
    Test,
    Ascii,
    Unicode,
}

/// The characters of `raw` that occur in `sigma`, in order.
pub open spec fn normalised_chars(sigma: Seq<char>, raw: Seq<char>) -> Seq<char> {
    raw.filter(|c: char| sigma.contains(c))
}

/// The alphabet string of an identifier, with the marker symbol appended
/// when one is requested. Only the `Test` alphabet is implemented.
pub fn get_sigma(sigma_id: SigmaID, set_marker: Option<&str>) -> (r: String)
    requires
        sigma_id is Test,
    ensures
        r@ == match set_marker {
            Some(m) => test_alphabet() + m@,
            None => test_alphabet(),
        },
{
    match set_marker {
        Some(marker_symbol) => {
            let s = dissolve_sigma_id(sigma_id);
            s.concat(marker_symbol)
        },
        None => dissolve_sigma_id(sigma_id),
    }
}

/// The lower-case letters and digits of the test alphabet.
pub open spec fn test_alphabet() -> Seq<char> {
    "abcdefghijklmnopqrstuvwxyz0123456789"@
}

/// The alphabet string of an identifier. Only the `Test` alphabet is
/// implemented.
fn dissolve_sigma_id(sigma_id: SigmaID) -> (r: String)
    requires
        sigma_id is Test,
    ensures
        r@ == test_alphabet(),
{
    match sigma_id {
        SigmaID::Test => String::from_str("abcdefghijklmnopqrstuvwxyz0123456789"),
        SigmaID::Ascii => {
            proof {
                assert(false);
            }
            String::new()
        },
        SigmaID::Unicode => {
            proof {
                assert(false);
            }
            String::new()
        },
    }
}

/// Whether `symbol` occurs in the alphabet string.
fn in_sigma(sigma: &Vec<char>, symbol: char) -> (r: bool)
    ensures
        r == sigma@.contains(symbol),
{
    let mut i: usize = 0;
    while i < sigma.len()
        invariant
            i <= sigma@.len(),
            forall|k: int| 0 <= k < i ==> sigma@[k] != symbol,
        decreases sigma@.len() - i,
    {
        if sigma[i] == symbol {
            return true;
        }
        i = i + 1;
    }
    proof {
        if sigma@.contains(symbol) {
            let k = choose|k: int| 0 <= k < sigma@.len() && sigma@[k] == symbol;
            assert(sigma@[k] != symbol);
        }
    }
    false
}

/// Normalise a text against the alphabet and, when a marker is set, put
/// `ngram_length` copies of it before and after the text. Fails exactly
/// when nothing of the text survives the filtering.
pub fn preprocess_text(sigma: &str, raw_str: &str, set_marker: Option<&str>, ngram_length: usize)
    -> (r: Result<String, TextError>)
    ensures
        r is Ok <==> normalised_chars(sigma@, raw_str@).len() > 0,
        r is Ok ==> r->Ok_0@ == match set_marker {
            Some(m) => repeated(m@, ngram_length as int) + normalised_chars(sigma@, raw_str@)
                + repeated(m@, ngram_length as int),
            None => normalised_chars(sigma@, raw_str@),
        },
{
    let normalised = match normalise_text(sigma, raw_str) {
        Ok(n) => n,
        Err(e) => {
            return Err(e);
        },
    };
    match set_marker {
        Some(marker_symbol) => Ok(
            generate_and_add_confix(normalised.as_str(), marker_symbol, ngram_length),
        ),
        None => Ok(normalised),
    }
}

/// `count` copies of `part`, concatenated.
pub open spec fn repeated(part: Seq<char>, count: int) -> Seq<char>
    decreases count,
{
    if count <= 0 {
        Seq::empty()
    } else {
        repeated(part, count - 1) + part
    }
}

/// The alphabet-filtered text; an empty result is an error.
fn normalise_text(sigma: &str, raw_text: &str) -> (r: Result<String, TextError>)
    ensures
        r is Ok <==> normalised_chars(sigma@, raw_text@).len() > 0,
        r is Ok ==> r->Ok_0@ == normalised_chars(sigma@, raw_text@),
{
    let sigma_chars = chars_of(sigma);
    let raw = chars_of(raw_text);
    let mut kept: Vec<char> = Vec::new();
    let mut i: usize = 0;
    while i < raw.len()
        invariant
            i <= raw@.len(),
            raw@ == raw_text@,
            sigma_chars@ == sigma@,
            kept@ =~= normalised_chars(sigma@, raw@.subrange(0, i as int)),
        decreases raw@.len() - i,
    {
        let ghost prefix = raw@.subrange(0, i as int);
        let ghost prefix1 = raw@.subrange(0, i + 1);
        proof {
            reveal(Seq::filter);
            assert(prefix1.drop_last() =~= prefix);
            assert(prefix1.last() == raw@[i as int]);
        }
        if in_sigma(&sigma_chars, raw[i]) {
            kept.push(raw[i]);
        }
        i = i + 1;
        proof {
            assert(kept@ =~= normalised_chars(sigma@, raw@.subrange(0, i as int)));
        }
    }
    proof {
        assert(raw@.subrange(0, raw@.len() as int) =~= raw@);
    }
    if kept.len() == 0 {
        Err(TextError::new("Text is empty"))
    } else {
        Ok(chars_to_string(&kept, 0, kept.len()))
    }
}

/// The normalised text with the confix put around it.
fn generate_and_add_confix(normalised: &str, marker_symbol: &str, ngram_length: usize) -> (r:
    String)
    ensures
        r@ == repeated(marker_symbol@, ngram_length as int) + normalised@ + repeated(
            marker_symbol@,
            ngram_length as int,
        ),
{
    let confix: String = generate_confix(marker_symbol, ngram_length);
    add_confix(normalised, confix.as_str())
}

/// `ngram_length` copies of the marker symbol.
fn generate_confix(marker_symbol: &str, ngram_length: usize) -> (r: String)
    ensures
        r@ == repeated(marker_symbol@, ngram_length as int),
{
    let mut r = String::new();
    let mut i: usize = 0;
    while i < ngram_length
        invariant
            i <= ngram_length,
            r@ == repeated(marker_symbol@, i as int),
        decreases ngram_length - i,
    {
        r.append(marker_symbol);
        i = i + 1;
    }
    r
}

/// The text with the confix before and after it.
fn add_confix(text: &str, confix: &str) -> (r: String)
    ensures
        r@ == confix@ + text@ + confix@,
{
    let mut r = String::from_str(confix);
    r.append(text);
    r.append(confix);
    r
}

/// The consecutive n-grams of width `n` of a text, in order.
pub fn get_ngrams(text: &str, n: usize) -> (r: Vec<String>)
    requires
        n >= 1,
    ensures
        r@.len() == if text@.len() >= n {
            text@.len() - n + 1
        } else {
            0
        },
        forall|i: int| 0 <= i < r@.len() ==> (#[trigger] r@[i])@ == text@.subrange(i, i + n),
{
    let cs = chars_of(text);
    char_windows(&cs, n)
}

/// All n-grams of width `ngram_length` over the alphabet string, without
/// duplicates. Lengths above three are not generated.
pub fn get_total_list_of_ngrams(sigma: &str, ngram_length: usize) -> (r: Option<Vec<String>>)
    ensures
        r is Some <==> 1 <= ngram_length <= 3,
        r is Some ==> crate::models::string_views(r->0@) == dedup_views(
            universe(singleton_views(sigma@), ngram_length as nat),
        ),
{
    if ngram_length < 1 || ngram_length > 3 {
        return None;
    }
    let cs = chars_of(sigma);
    let unigrams = char_windows(&cs, 1);
    proof {
        assert forall|i: int| 0 <= i < unigrams@.len() implies crate::models::string_views(
            unigrams@,
        )[i] == singleton_views(sigma@)[i] by {
            assert(crate::models::string_views(unigrams@)[i] == unigrams@[i]@);
            assert(singleton_views(sigma@)[i] == seq![sigma@[i]]);
            assert(sigma@.subrange(i, i + 1) =~= seq![sigma@[i]]);
        }
        assert(crate::models::string_views(unigrams@) =~= singleton_views(sigma@));
    }
    let generator = crate::models::ngram_model::NGramGenerator { unigrams };
    let all = generator.generate(ngram_length);
    let deduped = dedup_strings(&all);
    Some(deduped)
}

/// The first occurrences of the strings of `v`, in order.
fn dedup_strings(v: &Vec<String>) -> (r: Vec<String>)
    ensures
        crate::models::string_views(r@) == dedup_views(crate::models::string_views(v@)),
{
    let mut r: Vec<String> = Vec::new();
    let mut i: usize = 0;
    while i < v.len()
        invariant
            i <= v@.len(),
            crate::models::string_views(r@) =~= dedup_views(
                crate::models::string_views(v@).subrange(0, i as int),
            ),
        decreases v@.len() - i,
    {
        let ghost prefix = crate::models::string_views(v@).subrange(0, i as int);
        let ghost prefix1 = crate::models::string_views(v@).subrange(0, i + 1);
        proof {
            assert(prefix1.drop_last() =~= prefix);
            assert(prefix1.last() == v@[i as int]@);
        }
        if !contains_string(&r, &v[i]) {
            let s = v[i].clone();
            r.push(s);
            proof {
                let cur = crate::models::string_views(r@);
                assert forall|t: int| 0 <= t < cur.len() implies cur[t] == dedup_views(
                    prefix1,
                )[t] by {
                    assert(cur[t] == r@[t]@);
                    if t < cur.len() - 1 {
                        assert(dedup_views(prefix1)[t] == dedup_views(prefix)[t]);
                    }
                }
                assert(cur =~= dedup_views(prefix1));
            }
        }
        i = i + 1;
    }
    proof {
        assert(crate::models::string_views(v@).subrange(0, v@.len() as int)
            =~= crate::models::string_views(v@));
    }
    r
}

/// Whether a string with the same characters is already in the list.
fn contains_string(v: &Vec<String>, s: &String) -> (r: bool)
    ensures
        r == crate::models::string_views(v@).contains(s@),
{
    let mut i: usize = 0;
    while i < v.len()
        invariant
            i <= v@.len(),
            forall|k: int| 0 <= k < i ==> (#[trigger] v@[k])@ != s@,
        decreases v@.len() - i,
    {
        if v[i] == *s {
            proof {
                assert(crate::models::string_views(v@)[i as int] == v@[i as int]@);
            }
            return true;
        }
        i = i + 1;
    }
    proof {
        if crate::models::string_views(v@).contains(s@) {
            let k = choose|k: int|
                0 <= k < crate::models::string_views(v@).len() && crate::models::string_views(
                    v@,
                )[k] == s@;
            assert(v@[k]@ == s@);
            assert(false);
        }
    }
    false
}

} // verus!
