//! Small bridges between `String`/`&str` and the character sequences the
//! specifications speak about.

use vstd::prelude::*;

verus! {

/// Relies on `String::from` for `char`: the one-character string of `c`.
#[verifier::external_body]
pub fn string_of_char(c: char) -> (r: String)
    ensures
        r@ == seq![c],
{
    String::from(c)
}

/// Relies on `str::chars`: the characters of the string, in order.
#[verifier::external_body]
pub fn chars_of(s: &str) -> (r: Vec<char>)
    ensures
        r@ == s@,
{
    s.chars().collect()
}

} // verus!

verus! {

/// The decimal digit character of `d`.
pub open spec fn digit_char(d: int) -> char {
    ((48 + d) as u8) as char
}

/// The decimal representation of `n`, most significant digit first.
pub open spec fn dec_rep(n: nat) -> Seq<char>
    decreases n,
{
    if n < 10 {
        seq![digit_char(n as int)]
    } else {
        dec_rep(n / 10).push(digit_char((n % 10) as int))
    }
}

/// Whether `c` is a decimal digit.
pub open spec fn is_digit(c: char) -> bool {
    48 <= c as int <= 57
}

/// Every character of `s` is a decimal digit.
pub open spec fn all_digits(s: Seq<char>) -> bool {
    forall|i: int| 0 <= i < s.len() ==> is_digit(#[trigger] s[i])
}

/// The number denoted by a digit string, most significant digit first.
pub open spec fn digits_val(s: Seq<char>) -> int
    decreases s.len(),
{
    if s.len() == 0 {
        0
    } else {
        digits_val(s.drop_last()) * 10 + (s.last() as int - 48)
    }
}

/// What parsing a decimal number field yields: the denoted value, provided
/// the field is a non-empty digit string whose value is representable.
pub open spec fn parse_u128_spec(s: Seq<char>) -> Option<u128> {
    if s.len() >= 1 && all_digits(s) && digits_val(s) <= u128::MAX {
        Some(digits_val(s) as u128)
    } else {
        None
    }
}

/// A digit string denotes a non-negative number.
pub proof fn lemma_digits_val_nonneg(s: Seq<char>)
    requires
        all_digits(s),
    ensures
        digits_val(s) >= 0,
    decreases s.len(),
{
    if s.len() > 0 {
        assert(all_digits(s.drop_last())) by {
            assert forall|i: int| 0 <= i < s.len() - 1 implies is_digit(
                #[trigger] s.drop_last()[i],
            ) by {
                assert(s.drop_last()[i] == s[i]);
            }
        }
        lemma_digits_val_nonneg(s.drop_last());
    }
}

/// Extending a digit string can only increase the denoted value.
pub proof fn lemma_digits_val_prefix(s: Seq<char>, i: int)
    requires
        all_digits(s),
        0 <= i <= s.len(),
    ensures
        digits_val(s.subrange(0, i)) <= digits_val(s),
    decreases s.len() - i,
{
    if i == s.len() {
        assert(s.subrange(0, i) =~= s);
    } else {
        lemma_digits_val_prefix(s, i + 1);
        let p = s.subrange(0, i);
        let q = s.subrange(0, i + 1);
        assert(q.drop_last() =~= p);
        assert(all_digits(p)) by {
            assert forall|k: int| 0 <= k < p.len() implies is_digit(#[trigger] p[k]) by {
                assert(p[k] == s[k]);
            }
        }
        lemma_digits_val_nonneg(p);
        assert(is_digit(q.last())) by {
            assert(q.last() == s[i]);
        }
        assert(digits_val(q) == digits_val(p) * 10 + (q.last() as int - 48));
        assert(digits_val(p) * 10 >= digits_val(p)) by (nonlinear_arith)
            requires
                digits_val(p) >= 0,
        ;
    }
}

/// The digit character of `d` seen as a digit again denotes `d`.
pub proof fn lemma_digit_char_val(d: int)
    requires
        0 <= d <= 9,
    ensures
        is_digit(digit_char(d)),
        digit_char(d) as int == 48 + d,
{
}

/// The decimal representation of a number is a non-empty digit string that
/// denotes that number.
pub proof fn lemma_dec_rep_val(n: nat)
    ensures
        dec_rep(n).len() >= 1,
        all_digits(dec_rep(n)),
        digits_val(dec_rep(n)) == n,
    decreases n,
{
    if n < 10 {
        lemma_digit_char_val(n as int);
        assert(dec_rep(n) == seq![digit_char(n as int)]);
        assert(dec_rep(n).drop_last() =~= Seq::<char>::empty());
        assert(digits_val(Seq::<char>::empty()) == 0);
        assert(dec_rep(n).last() == digit_char(n as int));
        assert(digits_val(dec_rep(n)) == 0 * 10 + (digit_char(n as int) as int - 48));
    } else {
        lemma_dec_rep_val(n / 10);
        lemma_digit_char_val((n % 10) as int);
        let whole = dec_rep(n);
        assert(whole.drop_last() =~= dec_rep(n / 10));
        assert(whole.last() == digit_char((n % 10) as int));
        assert forall|i: int| 0 <= i < whole.len() implies is_digit(#[trigger] whole[i]) by {
            if i < whole.len() - 1 {
                assert(whole[i] == dec_rep(n / 10)[i]);
            }
        }
        assert(digits_val(whole) == (n / 10) * 10 + (n % 10));
        assert((n / 10) * 10 + (n % 10) == n) by (nonlinear_arith);
    }
}

/// The one-character string of a decimal digit.
fn digit_str(d: u128) -> (r: &'static str)
    requires
        d < 10,
    ensures
        r@ == seq![digit_char(d as int)],
{
    let r: &'static str = if d == 0 {
        proof {
            reveal_strlit("0");
        }
        "0"
    } else if d == 1 {
        proof {
            reveal_strlit("1");
        }
        "1"
    } else if d == 2 {
        proof {
            reveal_strlit("2");
        }
        "2"
    } else if d == 3 {
        proof {
            reveal_strlit("3");
        }
        "3"
    } else if d == 4 {
        proof {
            reveal_strlit("4");
        }
        "4"
    } else if d == 5 {
        proof {
            reveal_strlit("5");
        }
        "5"
    } else if d == 6 {
        proof {
            reveal_strlit("6");
        }
        "6"
    } else if d == 7 {
        proof {
            reveal_strlit("7");
        }
        "7"
    } else if d == 8 {
        proof {
            reveal_strlit("8");
        }
        "8"
    } else {
        proof {
            reveal_strlit("9");
        }
        "9"
    };
    proof {
        assert(r@ =~= seq![digit_char(d as int)]);
    }
    r
}

/// The decimal text of `n`.
pub fn u128_to_string(n: u128) -> (r: String)
    ensures
        r@ == dec_rep(n as nat),
    decreases n,
{
    if n < 10 {
        String::from_str(digit_str(n))
    } else {
        let mut s = u128_to_string(n / 10);
        s.append(digit_str(n % 10));
        s
    }
}

/// Parse the digit field `v[start..end]` as a number. Yields the denoted
/// value exactly when the field is a non-empty digit string whose value is
/// representable.
pub fn parse_u128(v: &Vec<char>, start: usize, end: usize) -> (r: Option<u128>)
    requires
        start <= end <= v@.len(),
    ensures
        r == parse_u128_spec(v@.subrange(start as int, end as int)),
{
    let ghost field = v@.subrange(start as int, end as int);
    if start == end {
        return None;
    }
    let mut acc: u128 = 0;
    let mut i: usize = start;
    while i < end
        invariant
            start <= i <= end <= v@.len(),
            field == v@.subrange(start as int, end as int),
            all_digits(field.subrange(0, i - start)),
            acc == digits_val(field.subrange(0, i - start)),
        decreases end - i,
    {
        let c = v[i];
        if c < '0' || c > '9' {
            proof {
                assert(field[i - start] == c);
                assert(!is_digit(field[i - start]));
            }
            return None;
        }
        let d = (c as u32 - 48) as u128;
        let ghost pre = field.subrange(0, i - start);
        let ghost cur = field.subrange(0, i + 1 - start);
        proof {
            assert(cur.drop_last() =~= pre);
            assert(cur.last() == field[i - start]);
            assert(field[i - start] == c);
        }
        let acc10 = match acc.checked_mul(10) {
            Some(x) => x,
            None => {
                proof {
                    lemma_overflow_means_large(field, i - start + 1, acc as int * 10 + d as int);
                }
                return None;
            },
        };
        let acc2 = match acc10.checked_add(d) {
            Some(x) => x,
            None => {
                proof {
                    lemma_overflow_means_large(field, i - start + 1, acc as int * 10 + d as int);
                }
                return None;
            },
        };
        acc = acc2;
        i = i + 1;
    }
    proof {
        assert(field.subrange(0, end - start) =~= field);
    }
    Some(acc)
}

/// If some prefix of a digit field already denotes more than the
/// representable maximum, the whole field does too.
proof fn lemma_overflow_means_large(field: Seq<char>, i: int, val: int)
    requires
        0 < i <= field.len(),
        all_digits(field.subrange(0, i)),
        digits_val(field.subrange(0, i)) == val,
        val > u128::MAX,
    ensures
        !(all_digits(field) && digits_val(field) <= u128::MAX),
{
    if all_digits(field) {
        lemma_digits_val_prefix(field, i);
    }
}

/// Build the string of the characters `v[start..end]`.
pub fn chars_to_string(v: &Vec<char>, start: usize, end: usize) -> (r: String)
    requires
        start <= end <= v@.len(),
    ensures
        r@ == v@.subrange(start as int, end as int),
{
    let mut r = String::new();
    let mut i: usize = start;
    while i < end
        invariant
            start <= i <= end <= v@.len(),
            r@ == v@.subrange(start as int, i as int),
        decreases end - i,
    {
        let s = string_of_char(v[i]);
        r.append(s.as_str());
        i = i + 1;
        proof {
            assert(v@.subrange(start as int, i as int) =~= v@.subrange(start as int, i - 1).push(
                v@[i - 1],
            ));
        }
    }
    r
}

} // verus!

verus! {

/// The value of two digit strings in sequence: the first, shifted by the
/// second's length, plus the second.
pub proof fn lemma_digits_concat(a: Seq<char>, b: Seq<char>)
    ensures
        digits_val(a + b) == digits_val(a) * vstd::arithmetic::power::pow(10, b.len()) + digits_val(
            b,
        ),
    decreases b.len(),
{
    if b.len() == 0 {
        assert(a + b =~= a);
        vstd::arithmetic::power::lemma_pow0(10);
        assert(digits_val(a) * 1 == digits_val(a)) by (nonlinear_arith);
    } else {
        assert((a + b).drop_last() =~= a + b.drop_last());
        assert((a + b).last() == b.last());
        lemma_digits_concat(a, b.drop_last());
        vstd::arithmetic::power::lemma_pow1(10);
        vstd::arithmetic::power::lemma_pow_adds(10, (b.len() - 1) as nat, 1);
        let va = digits_val(a);
        let vp = digits_val(b.drop_last());
        let p = vstd::arithmetic::power::pow(10, (b.len() - 1) as nat);
        let last = b.last() as int - 48;
        assert((va * p + vp) * 10 + last == va * (p * 10) + (vp * 10 + last)) by (nonlinear_arith);
    }
}

/// Ten to the `k`-th power, or `None` when it is not representable.
pub fn pow10_u128(k: usize) -> (r: Option<u128>)
    ensures
        match r {
            Some(x) => x == vstd::arithmetic::power::pow(10, k as nat) && x >= 1,
            None => vstd::arithmetic::power::pow(10, k as nat) > u128::MAX,
        },
{
    let mut acc: u128 = 1;
    let mut i: usize = 0;
    proof {
        vstd::arithmetic::power::lemma_pow0(10);
    }
    while i < k
        invariant
            i <= k,
            acc == vstd::arithmetic::power::pow(10, i as nat),
            acc >= 1,
        decreases k - i,
    {
        proof {
            vstd::arithmetic::power::lemma_pow1(10);
            vstd::arithmetic::power::lemma_pow_adds(10, i as nat, 1);
        }
        let next = match acc.checked_mul(10) {
            Some(x) => x,
            None => {
                proof {
                    vstd::arithmetic::power::lemma_pow_increases(10, (i + 1) as nat, k as nat);
                }
                return None;
            },
        };
        acc = next;
        i = i + 1;
    }
    Some(acc)
}

} // verus!
