//! Decimal digit strings: the specification of what a decimal numeral means,
//! a verified printer from `u64` to its canonical numeral, and a verified
//! scanner that reads a numeral back.  Both the money codec and the snapshot
//! codec are built on these.

use vstd::prelude::*;
use vstd::string::StringExecFns;

verus! {

/// The ten decimal digit characters.
pub open spec fn is_digit(c: char) -> bool {
    ||| c == '0'
    ||| c == '1'
    ||| c == '2'
    ||| c == '3'
    ||| c == '4'
    ||| c == '5'
    ||| c == '6'
    ||| c == '7'
    ||| c == '8'
    ||| c == '9'
}

/// Numeric value of a digit character (0 for any non-digit).
pub open spec fn digit_val(c: char) -> nat {
    if c == '1' {
        1
    } else if c == '2' {
        2
    } else if c == '3' {
        3
    } else if c == '4' {
        4
    } else if c == '5' {
        5
    } else if c == '6' {
        6
    } else if c == '7' {
        7
    } else if c == '8' {
        8
    } else if c == '9' {
        9
    } else {
        0
    }
}

/// The digit character for a value below ten ('9' for anything larger).
pub open spec fn digit_char(d: nat) -> char {
    if d == 0 {
        '0'
    } else if d == 1 {
        '1'
    } else if d == 2 {
        '2'
    } else if d == 3 {
        '3'
    } else if d == 4 {
        '4'
    } else if d == 5 {
        '5'
    } else if d == 6 {
        '6'
    } else if d == 7 {
        '7'
    } else if d == 8 {
        '8'
    } else {
        '9'
    }
}

/// Every character of `s` is a decimal digit.
pub open spec fn all_digits(s: Seq<char>) -> bool {
    forall|i: int| 0 <= i < s.len() ==> is_digit(#[trigger] s[i])
}

/// The value of a digit string read in base ten, most significant digit first.
pub open spec fn digits_val(s: Seq<char>) -> nat
    decreases s.len(),
{
    if s.len() == 0 {
        0
    } else {
        digits_val(s.drop_last()) * 10 + digit_val(s.last())
    }
}

/// The canonical decimal numeral of `n`: no leading zeros, and a single
/// `'0'` for zero itself.
pub open spec fn dec_digits(n: nat) -> Seq<char>
    decreases n,
{
    if n < 10 {
        seq![digit_char(n)]
    } else {
        dec_digits(n / 10).push(digit_char(n % 10))
    }
}

/// A digit character round-trips through its value, and vice versa.
pub proof fn lemma_digit_char_val(d: nat)
    requires
        d < 10,
    ensures
        is_digit(digit_char(d)),
        digit_val(digit_char(d)) == d,
{
}

/// Reading one more character multiplies the value so far by ten.
pub proof fn lemma_digits_val_step(s: Seq<char>, k: int)
    requires
        0 <= k < s.len(),
    ensures
        digits_val(s.take(k + 1)) == digits_val(s.take(k)) * 10 + digit_val(s[k]),
{
    assert(s.take(k + 1).drop_last() =~= s.take(k));
    assert(s.take(k + 1).last() == s[k]);
}

/// The canonical numeral of `n` is a nonempty digit string whose value is `n`.
pub proof fn lemma_dec_digits(n: nat)
    ensures
        dec_digits(n).len() >= 1,
        all_digits(dec_digits(n)),
        digits_val(dec_digits(n)) == n,
    decreases n,
{
    if n < 10 {
        lemma_digit_char_val(n);
        let s = seq![digit_char(n)];
        assert(dec_digits(n) == s);
        assert(s.drop_last() =~= Seq::<char>::empty());
        assert(s.last() == digit_char(n));
        assert(digits_val(s) == digits_val(s.drop_last()) * 10 + digit_val(s.last()));
        assert(digits_val(Seq::<char>::empty()) == 0);
        assert(digits_val(s) == n);
    } else {
        lemma_dec_digits(n / 10);
        lemma_digit_char_val(n % 10);
        let w = dec_digits(n / 10);
        let s = w.push(digit_char(n % 10));
        assert(s.drop_last() =~= w);
        assert forall|i: int| 0 <= i < s.len() implies is_digit(#[trigger] s[i]) by {
            if i < w.len() {
                assert(s[i] == w[i]);
            }
        }
        assert(s.last() == digit_char(n % 10));
        assert(digits_val(s) == digits_val(s.drop_last()) * 10 + digit_val(s.last()));
        assert(digits_val(s.drop_last()) == n / 10);
        assert(n == (n / 10) * 10 + n % 10) by (nonlinear_arith);
        assert(digits_val(s) == n);
    }
}

/// The value of a two-character digit string.
pub proof fn lemma_digits_val_pair(a: char, b: char)
    ensures
        digits_val(seq![a, b]) == digit_val(a) * 10 + digit_val(b),
{
    let s = seq![a, b];
    let w = seq![a];
    assert(s.drop_last() =~= w);
    assert(w.drop_last() =~= Seq::<char>::empty());
    assert(digits_val(Seq::<char>::empty()) == 0);
    assert(digits_val(w) == digits_val(w.drop_last()) * 10 + digit_val(w.last()));
    assert(digits_val(s) == digits_val(s.drop_last()) * 10 + digit_val(s.last()));
}

/// A one-character string for a digit value below ten.
pub(crate) fn digit_str(d: u64) -> (s: &'static str)
    requires
        d < 10,
    ensures
        s@ == seq![digit_char(d as nat)],
{
    proof {
        reveal_strlit("0");
        reveal_strlit("1");
        reveal_strlit("2");
        reveal_strlit("3");
        reveal_strlit("4");
        reveal_strlit("5");
        reveal_strlit("6");
        reveal_strlit("7");
        reveal_strlit("8");
        reveal_strlit("9");
    }
    let s: &'static str = if d == 0 {
        "0"
    } else if d == 1 {
        "1"
    } else if d == 2 {
        "2"
    } else if d == 3 {
        "3"
    } else if d == 4 {
        "4"
    } else if d == 5 {
        "5"
    } else if d == 6 {
        "6"
    } else if d == 7 {
        "7"
    } else if d == 8 {
        "8"
    } else {
        "9"
    };
    proof {
        assert(s@ =~= seq![digit_char(d as nat)]);
    }
    s
}

/// Prints `n` as its canonical decimal numeral.
pub fn u64_to_string(n: u64) -> (s: String)
    ensures
        s@ == dec_digits(n as nat),
    decreases n,
{
    if n < 10 {
        digit_str(n).to_owned()
    } else {
        let mut s = u64_to_string(n / 10);
        s.append(digit_str(n % 10));
        proof {
            assert(s@ =~= dec_digits((n / 10) as nat).push(digit_char((n % 10) as nat)));
        }
        s
    }
}

/// Executable twin of [`is_digit`].
pub(crate) fn is_digit_exec(c: char) -> (b: bool)
    ensures
        b == is_digit(c),
{
    c == '0' || c == '1' || c == '2' || c == '3' || c == '4' || c == '5' || c == '6' || c == '7'
        || c == '8' || c == '9'
}

/// Executable twin of [`digit_val`].
pub(crate) fn digit_val_exec(c: char) -> (d: u64)
    ensures
        d as nat == digit_val(c),
        d < 10,
{
    if c == '1' {
        1
    } else if c == '2' {
        2
    } else if c == '3' {
        3
    } else if c == '4' {
        4
    } else if c == '5' {
        5
    } else if c == '6' {
        6
    } else if c == '7' {
        7
    } else if c == '8' {
        8
    } else if c == '9' {
        9
    } else {
        0
    }
}

/// Finds the end of the run of digit characters that starts at `from`.
pub(crate) fn scan_digits_end(s: &str, n: usize, from: usize) -> (j: usize)
    requires
        n == s@.len(),
        from <= n,
    ensures
        from <= j <= n,
        forall|i: int| from <= i < j ==> is_digit(#[trigger] s@[i]),
        j < n ==> !is_digit(s@[j as int]),
{
    let mut j = from;
    while j < n && is_digit_exec(s.get_char(j))
        invariant
            from <= j <= n,
            n == s@.len(),
            forall|i: int| from <= i < j ==> is_digit(#[trigger] s@[i]),
        decreases n - j,
    {
        j = j + 1;
    }
    j
}

/// Reads the value of the digit run `s[from..to]`; `None` means the value
/// does not fit in a `u64`.
pub(crate) fn parse_digits_u64(s: &str, from: usize, to: usize) -> (r: Option<u64>)
    requires
        from <= to <= s@.len(),
        forall|i: int| from <= i < to ==> is_digit(#[trigger] s@[i]),
    ensures
        match r {
            Some(v) => v as nat == digits_val(s@.subrange(from as int, to as int)),
            None => digits_val(s@.subrange(from as int, to as int)) > u64::MAX,
        },
{
    let ghost run = s@.subrange(from as int, to as int);
    let mut acc: Option<u64> = Some(0);
    let mut k = from;
    proof {
        assert(run.take(0) =~= Seq::<char>::empty());
    }
    while k < to
        invariant
            from <= k <= to <= s@.len(),
            forall|i: int| from <= i < to ==> is_digit(#[trigger] s@[i]),
            run == s@.subrange(from as int, to as int),
            match acc {
                Some(v) => v as nat == digits_val(run.take(k - from)),
                None => digits_val(run.take(k - from)) > u64::MAX,
            },
        decreases to - k,
    {
        let c = s.get_char(k);
        proof {
            assert(run[k - from] == s@[k as int]);
        }
        let d: u64 = if c == '0' {
            0
        } else if c == '1' {
            1
        } else if c == '2' {
            2
        } else if c == '3' {
            3
        } else if c == '4' {
            4
        } else if c == '5' {
            5
        } else if c == '6' {
            6
        } else if c == '7' {
            7
        } else if c == '8' {
            8
        } else {
            9
        };
        proof {
            assert(d as nat == digit_val(run[k - from]));
            lemma_digits_val_step(run, k - from);
        }
        acc = match acc {
            Some(v) => match v.checked_mul(10) {
                Some(w) => w.checked_add(d),
                None => None,
            },
            None => None,
        };
        k = k + 1;
    }
    proof {
        assert(run.take(to - from) =~= run);
    }
    acc
}

} // verus!
