//! The money codec: parses a human-entered amount string into integer cents
//! and formats integer cents back into a display string such as `-$12.34`.

use vstd::prelude::*;
use vstd::math::abs;
use vstd::string::StringExecFns;

use crate::digits::{
    all_digits, dec_digits, digit_char, digit_str, digit_val, digit_val_exec, digits_val, is_digit,
    is_digit_exec, lemma_dec_digits, lemma_digit_char_val, lemma_digits_val_pair, parse_digits_u64,
    scan_digits_end, u64_to_string,
};

verus! {

/// The amount string could not be read as a money value.
#[derive(Debug, Clone)]
pub struct ParseMoneyError;

impl ParseMoneyError {
    /// Human-readable description of the error.
    pub fn message(&self) -> (s: &'static str)
        ensures
            s@ == "could not parse money"@,
    {
        "could not parse money"
    }
}

/// Whether a value in cents is representable as an `i64`.
pub open spec fn fits_i64(v: int) -> bool {
    i64::MIN <= v <= i64::MAX
}

/// The unsigned value, in cents, of an amount string with sign and currency
/// symbol already stripped: one or more digits, optionally followed by a dot
/// and exactly two digits.
pub open spec fn money_body(s: Seq<char>) -> Option<nat> {
    if s.len() >= 3 && s[s.len() - 3] == '.' {
        let intpart = s.take(s.len() - 3);
        let frac = s.skip(s.len() - 2);
        if intpart.len() > 0 && all_digits(intpart) && all_digits(frac) {
            Some(digits_val(intpart) * 100 + digits_val(frac))
        } else {
            None
        }
    } else if s.len() > 0 && all_digits(s) {
        Some(digits_val(s) * 100)
    } else {
        None
    }
}

/// The value, in cents, that an amount string denotes: an optional leading
/// `-`, an optional `$`, then digits with an optional two-digit fraction.
/// The sign applies to the combined value.  `None` means the string is not
/// a well-formed amount.
pub open spec fn money_spec_parse(s: Seq<char>) -> Option<int> {
    let neg = s.len() > 0 && s[0] == '-';
    let s1 = if neg {
        s.drop_first()
    } else {
        s
    };
    let s2 = if s1.len() > 0 && s1[0] == '$' {
        s1.drop_first()
    } else {
        s1
    };
    match money_body(s2) {
        Some(v) => Some(
            if neg {
                -(v as int)
            } else {
                v as int
            },
        ),
        None => None,
    }
}

/// The canonical display string of a value in cents:
/// `[-]$<dollars>.<cc>` with the cents always two digits.
pub open spec fn money_string(c: int) -> Seq<char> {
    let mag = abs(c) as nat;
    let sign: Seq<char> = if c < 0 {
        seq!['-']
    } else {
        seq![]
    };
    sign + seq!['$'] + dec_digits(mag / 100) + seq!['.'] + seq![
        digit_char((mag % 100) / 10),
        digit_char(mag % 10),
    ]
}

/// Renders integer cents as a display string, e.g. `1234` as `$12.34` and
/// `-1` as `-$0.01`.
pub fn format_money(money: i64) -> (s: String)
    ensures
        s@ == money_string(money as int),
{
    let mag: u64 = if money >= 0 {
        money as u64
    } else {
        ((-(money + 1)) as u64) + 1
    };
    proof {
        assert(mag as int == abs(money as int));
    }
    let mut s = String::new();
    if money < 0 {
        s.append("-");
    }
    s.append("$");
    let dollars = u64_to_string(mag / 100);
    s.append(dollars.as_str());
    s.append(".");
    s.append(digit_str((mag % 100) / 10));
    s.append(digit_str(mag % 10));
    proof {
        reveal_strlit("-");
        reveal_strlit("$");
        reveal_strlit(".");
        assert(s@ =~= money_string(money as int));
    }
    s
}

/// Parses an amount string into integer cents.  Fails exactly when the
/// string does not match the amount grammar or the value does not fit in
/// an `i64`.
#[verifier::rlimit(60)]
pub fn parse_money(input: &str) -> (r: Result<i64, ParseMoneyError>)
    ensures
        r is Ok ==> money_spec_parse(input@) == Some(r->Ok_0 as int),
        r is Err ==> (money_spec_parse(input@) is None || !fits_i64(
            money_spec_parse(input@)->Some_0,
        )),
{
    let ghost s = input@;
    let n = input.unicode_len();
    let mut i: usize = 0;
    let mut neg = false;
    if i < n && input.get_char(i) == '-' {
        neg = true;
        i = 1;
    }
    proof {
        assert(neg == (s.len() > 0 && s[0] == '-'));
    }
    if i < n && input.get_char(i) == '$' {
        i = i + 1;
    }
    let ghost s1 = if s.len() > 0 && s[0] == '-' {
        s.drop_first()
    } else {
        s
    };
    let ghost s2 = if s1.len() > 0 && s1[0] == '$' {
        s1.drop_first()
    } else {
        s1
    };
    proof {
        assert(s2 =~= s.skip(i as int));
    }
    let start = i;
    let j = scan_digits_end(input, n, start);
    if j == start {
        proof {
            if start < n {
                assert(s2[0] == s[start as int]);
            }
            lemma_body_none_when_no_leading_digit(s2);
        }
        return Err(ParseMoneyError);
    }
    let dollars_opt = parse_digits_u64(input, start, j);
    let ghost intpart = s.subrange(start as int, j as int);
    proof {
        assert(intpart =~= s2.take(j - start));
    }
    let cents: u64;
    if j == n {
        cents = 0;
        proof {
            assert(intpart =~= s2);
            assert forall|m: int| 0 <= m < s2.len() implies is_digit(#[trigger] s2[m]) by {
                assert(s2[m] == s[start + m]);
            }
            assert(money_body(s2) == Some(digits_val(s2) * 100)) by {
                if s2.len() >= 3 && s2[s2.len() - 3] == '.' {
                    assert(is_digit(s2[s2.len() - 3]));
                    assert(false);
                }
            }
        }
    } else {
        proof {
            assert forall|m: int| 0 <= m < j - start implies is_digit(#[trigger] s2[m]) by {
                assert(s2[m] == s[start + m]);
            }
            assert(s2[j - start] == s[j as int]);
        }
        if input.get_char(j) != '.' {
            proof {
                lemma_body_none_at_nondigit_nondot(s2, j - start);
            }
            return Err(ParseMoneyError);
        }
        if n - j != 3 {
            proof {
                lemma_body_none_wrong_frac_len(s2, j - start);
            }
            return Err(ParseMoneyError);
        }
        let c1 = input.get_char(j + 1);
        let c2 = input.get_char(j + 2);
        if !is_digit_exec(c1) || !is_digit_exec(c2) {
            proof {
                assert(s2.len() >= 3 && s2[s2.len() - 3] == '.');
                assert(s2.skip(s2.len() - 2)[0] == c1);
                assert(s2.skip(s2.len() - 2)[1] == c2);
                assert(money_body(s2) is None);
            }
            return Err(ParseMoneyError);
        }
        let d1 = digit_val_exec(c1);
        let d2 = digit_val_exec(c2);
        cents = d1 * 10 + d2;
        proof {
            let frac = s2.skip(s2.len() - 2);
            assert(frac.len() == 2);
            assert(frac[0] == c1);
            assert(frac[1] == c2);
            assert(frac =~= seq![c1, c2]);
            lemma_digits_val_pair(c1, c2);
            assert(digits_val(frac) == digit_val(c1) * 10 + digit_val(c2));
            assert(all_digits(frac));
            assert(s2.take(s2.len() - 3) =~= intpart);
            assert forall|m: int| 0 <= m < intpart.len() implies is_digit(
                #[trigger] intpart[m],
            ) by {
                assert(intpart[m] == s[start + m]);
            }
            assert(s2.len() >= 3 && s2[s2.len() - 3] == '.');
            assert(money_body(s2) == Some(digits_val(intpart) * 100 + digits_val(frac)));
        }
    }
    let ghost body_val = money_body(s2)->Some_0;
    let ghost parsed = if neg {
        -(body_val as int)
    } else {
        body_val as int
    };
    proof {
        assert(money_body(s2) == Some(body_val));
        assert(money_spec_parse(s) == Some(parsed));
        assert(body_val == digits_val(intpart) * 100 + cents);
    }
    let total: u64 = match dollars_opt {
        Some(dv) => {
            match dv.checked_mul(100) {
                Some(w) => {
                    match w.checked_add(cents) {
                        Some(t) => t,
                        None => {
                            proof {
                                lemma_big_body_out_of_range(body_val);
                            }
                            return Err(ParseMoneyError);
                        },
                    }
                },
                None => {
                    proof {
                        assert(body_val >= digits_val(intpart) * 100);
                        lemma_big_body_out_of_range(body_val);
                    }
                    return Err(ParseMoneyError);
                },
            }
        },
        None => {
            proof {
                assert(digits_val(intpart) * 100 >= digits_val(intpart));
                assert(body_val >= digits_val(intpart) * 100);
                lemma_big_body_out_of_range(body_val);
            }
            return Err(ParseMoneyError);
        },
    };
    proof {
        assert(total as nat == body_val);
    }
    if neg {
        let bound: u64 = 0x8000_0000_0000_0000;
        if total > bound {
            return Err(ParseMoneyError);
        } else if total == bound {
            Ok(i64::MIN)
        } else {
            Ok(-(total as i64))
        }
    } else {
        if total > i64::MAX as u64 {
            return Err(ParseMoneyError);
        }
        Ok(total as i64)
    }
}

/// A body that does not start with a digit denotes no value.
proof fn lemma_body_none_when_no_leading_digit(s: Seq<char>)
    requires
        s.len() == 0 || !is_digit(s[0]),
    ensures
        money_body(s) is None,
{
    if s.len() >= 3 && s[s.len() - 3] == '.' {
        let intpart = s.take(s.len() - 3);
        if intpart.len() > 0 && all_digits(intpart) {
            assert(is_digit(intpart[0]));
            assert(intpart[0] == s[0]);
        }
    }
    if s.len() > 0 && all_digits(s) {
        assert(is_digit(s[0]));
    }
}

/// If the leading digit run ends at a character that is neither a digit nor
/// a dot, the body denotes no value.
proof fn lemma_body_none_at_nondigit_nondot(s: Seq<char>, j: int)
    requires
        0 <= j < s.len(),
        forall|i: int| 0 <= i < j ==> is_digit(#[trigger] s[i]),
        !is_digit(s[j]),
        s[j] != '.',
    ensures
        money_body(s) is None,
{
    if s.len() >= 3 && s[s.len() - 3] == '.' {
        let intpart = s.take(s.len() - 3);
        let dot = s.len() - 3;
        if j < dot {
            if intpart.len() > 0 && all_digits(intpart) {
                assert(is_digit(intpart[j]));
                assert(intpart[j] == s[j]);
            }
        } else if j == dot {
            assert(false);
        } else {
            assert(is_digit(s[dot]));
            assert(false);
        }
    }
    if s.len() > 0 && all_digits(s) {
        assert(is_digit(s[j]));
    }
}

/// If the first dot does not sit exactly three characters before the end,
/// the body denotes no value.
proof fn lemma_body_none_wrong_frac_len(s: Seq<char>, j: int)
    requires
        0 <= j < s.len(),
        forall|i: int| 0 <= i < j ==> is_digit(#[trigger] s[i]),
        !is_digit(s[j]),
        s[j] == '.',
        s.len() - j != 3,
    ensures
        money_body(s) is None,
{
    if s.len() >= 3 && s[s.len() - 3] == '.' {
        let intpart = s.take(s.len() - 3);
        let dot = s.len() - 3;
        if j < dot {
            if intpart.len() > 0 && all_digits(intpart) {
                assert(is_digit(intpart[j]));
                assert(intpart[j] == s[j]);
            }
        } else if j == dot {
            assert(false);
        } else {
            assert(is_digit(s[dot]));
            assert(false);
        }
    }
    if s.len() > 0 && all_digits(s) {
        assert(is_digit(s[j]));
    }
}

/// A body value beyond `u64::MAX` cannot fit an `i64` with either sign.
proof fn lemma_big_body_out_of_range(v: nat)
    requires
        v > u64::MAX,
    ensures
        !fits_i64(v as int),
        !fits_i64(-(v as int)),
{
}

/// Formatting integer cents and parsing the result yields the same value:
/// `parse` is a left inverse of `format` for every cent amount.
pub proof fn lemma_parse_format_roundtrip(c: int)
    ensures
        money_spec_parse(money_string(c)) == Some(c),
{
    let mag = abs(c) as nat;
    let dollars = dec_digits(mag / 100);
    let t = digit_char((mag % 100) / 10);
    let o = digit_char(mag % 10);
    lemma_dec_digits(mag / 100);
    lemma_digit_char_val((mag % 100) / 10);
    lemma_digit_char_val(mag % 10);
    let s = money_string(c);
    let s2 = seq!['$'] + dollars + seq!['.'] + seq![t, o];
    let body = dollars + seq!['.'] + seq![t, o];
    if c < 0 {
        assert(s[0] == '-');
        assert(s.drop_first() =~= s2);
    } else {
        assert(s[0] == '$');
        assert(s =~= s2);
    }
    assert(s2[0] == '$');
    assert(s2.drop_first() =~= body);
    let len = body.len() as int;
    assert(body[len - 3] == '.');
    assert(body.take(len - 3) =~= dollars);
    let frac = body.skip(len - 2);
    assert(frac =~= seq![t, o]);
    lemma_digits_val_pair(t, o);
    assert(digits_val(frac) == digit_val(t) * 10 + digit_val(o));
    assert(digits_val(frac) == ((mag % 100) / 10) * 10 + mag % 10);
    assert(((mag % 100) / 10) * 10 + mag % 10 == mag % 100) by (nonlinear_arith);
    assert(money_body(body) == Some((digits_val(dollars) * 100 + digits_val(frac)) as nat));
    assert((mag / 100) * 100 + mag % 100 == mag) by (nonlinear_arith);
    assert(money_body(body) == Some(mag));
    if c < 0 {
        assert(money_spec_parse(s) == Some(-(mag as int)));
    } else {
        assert(money_spec_parse(s) == Some(mag as int));
    }
}

} // verus!
