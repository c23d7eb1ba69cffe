//! Decimal text for integers, in both directions: rendering a number as
//! its digit characters, and reading a digit run back into a value.

use vstd::prelude::*;

verus! {

pub open spec fn is_digit(c: char) -> bool {
    c == '0' || c == '1' || c == '2' || c == '3' || c == '4' || c == '5' || c == '6' || c == '7'
        || c == '8' || c == '9'
}

/// Numeric value of a digit character; zero on anything else, so the
/// result is always below ten.
pub open spec fn digit_val(c: char) -> nat {
    if c == '1' {
        1
    } else if c == '2' {
        2
    } else if c == '3' {
        3
    } else if c == '4' {
        4
    } else if c == '5' {
        5
    } else if c == '6' {
        6
    } else if c == '7' {
        7
    } else if c == '8' {
        8
    } else if c == '9' {
        9
    } else {
        0
    }
}

/// Digit character for a value below ten.
pub open spec fn digit_char(d: nat) -> char {
    if d == 1 {
        '1'
    } else if d == 2 {
        '2'
    } else if d == 3 {
        '3'
    } else if d == 4 {
        '4'
    } else if d == 5 {
        '5'
    } else if d == 6 {
        '6'
    } else if d == 7 {
        '7'
    } else if d == 8 {
        '8'
    } else if d == 9 {
        '9'
    } else {
        '0'
    }
}

pub open spec fn pow10(k: nat) -> nat
    decreases k,
{
    if k == 0 {
        1
    } else {
        10 * pow10((k - 1) as nat)
    }
}

/// Decimal digits of `n`, most significant first, without leading
/// zeros (a single `'0'` for zero itself).
pub open spec fn spec_digits(n: nat) -> Seq<char>
    decreases n,
{
    if n < 10 {
        seq![digit_char(n)]
    } else {
        spec_digits(n / 10).push(digit_char(n % 10))
    }
}

/// Decimal text of an integer: a minus sign before the digits of the
/// magnitude when negative.
pub open spec fn spec_int_text(v: int) -> Seq<char> {
    if v < 0 {
        seq!['-'] + spec_digits((-v) as nat)
    } else {
        spec_digits(v as nat)
    }
}

/// Length of the digit run at the front of `s`.
pub open spec fn run_len(s: Seq<char>) -> nat
    decreases s.len(),
{
    if s.len() > 0 && is_digit(s[0]) {
        1 + run_len(s.skip(1))
    } else {
        0
    }
}

/// Value of the first `n` characters of `s` read as decimal digits.
pub open spec fn digits_value(s: Seq<char>, n: nat) -> nat
    decreases n,
{
    if n == 0 {
        0
    } else {
        digits_value(s, (n - 1) as nat) * 10 + digit_val(s[n - 1])
    }
}

/// Reads the decimal number at the front of `s`: its value and the text
/// that follows it.  There is no number to read when no digit is first;
/// a run of more than ten digits is out of range for every value this
/// protocol carries and is likewise refused.
pub open spec fn parse_number(s: Seq<char>) -> Option<(nat, Seq<char>)> {
    let n = run_len(s);
    if 1 <= n <= 10 {
        Some((digits_value(s, n), s.skip(n as int)))
    } else {
        None
    }
}

pub proof fn lemma_run_len_le(s: Seq<char>)
    ensures
        run_len(s) <= s.len(),
    decreases s.len(),
{
    if s.len() > 0 && is_digit(s[0]) {
        lemma_run_len_le(s.skip(1));
    }
}

/// A digit run followed by a non-digit (or by nothing) has exactly the
/// run as its leading digits.
pub proof fn lemma_run_len_exact(d: Seq<char>, rest: Seq<char>)
    requires
        forall|i: int| 0 <= i < d.len() ==> is_digit(d[i]),
        rest.len() == 0 || !is_digit(rest[0]),
    ensures
        run_len(d + rest) == d.len(),
    decreases d.len(),
{
    if d.len() == 0 {
        assert(d + rest =~= rest);
    } else {
        assert((d + rest)[0] == d[0]);
        assert((d + rest).skip(1) =~= d.skip(1) + rest);
        lemma_run_len_exact(d.skip(1), rest);
    }
}

/// A leading digit run is at least as long as any all-digit prefix.
pub proof fn lemma_run_len_ge(d: Seq<char>, rest: Seq<char>)
    requires
        forall|i: int| 0 <= i < d.len() ==> is_digit(d[i]),
    ensures
        run_len(d + rest) >= d.len(),
    decreases d.len(),
{
    if d.len() > 0 {
        assert((d + rest)[0] == d[0]);
        assert((d + rest).skip(1) =~= d.skip(1) + rest);
        lemma_run_len_ge(d.skip(1), rest);
    }
}

/// The value of the first `n` characters depends on those characters
/// alone.
pub proof fn lemma_digits_value_prefix(s1: Seq<char>, s2: Seq<char>, n: nat)
    requires
        forall|i: int| 0 <= i < n ==> s1[i] == s2[i],
    ensures
        digits_value(s1, n) == digits_value(s2, n),
    decreases n,
{
    if n > 0 {
        lemma_digits_value_prefix(s1, s2, (n - 1) as nat);
    }
}

pub proof fn lemma_digits_value_bound(s: Seq<char>, n: nat)
    ensures
        digits_value(s, n) < pow10(n),
    decreases n,
{
    if n > 0 {
        lemma_digits_value_bound(s, (n - 1) as nat);
    }
}

pub proof fn lemma_pow10_10()
    ensures
        pow10(10) == 10000000000,
{
    assert(pow10(10) == 10000000000) by {
        reveal_with_fuel(pow10, 11);
    }
}

/// The canonical digit text of `n` is made of digits, is never empty,
/// and reads back to `n`.
pub proof fn lemma_spec_digits_read_back(n: nat)
    ensures
        spec_digits(n).len() >= 1,
        forall|i: int| 0 <= i < spec_digits(n).len() ==> is_digit(#[trigger] spec_digits(n)[i]),
        digits_value(spec_digits(n), spec_digits(n).len() as nat) == n,
    decreases n,
{
    if n < 10 {
        let s = spec_digits(n);
        assert(s =~= seq![digit_char(n)]);
        assert(digits_value(s, 0) == 0) by {
            reveal_with_fuel(digits_value, 1);
        }
        assert(digits_value(s, 1) == digit_val(s[0]));
    } else {
        lemma_spec_digits_read_back(n / 10);
        let m = spec_digits(n / 10);
        let s = spec_digits(n);
        assert(s == m.push(digit_char(n % 10)));
        assert(forall|i: int| 0 <= i < m.len() ==> s[i] == m[i]);
        lemma_digits_value_prefix(s, m, m.len() as nat);
        assert(s[s.len() - 1] == digit_char(n % 10));
        assert(digit_val(digit_char(n % 10)) == n % 10);
        assert(digits_value(s, s.len() as nat) == (n / 10) * 10 + n % 10);
    }
}

/// A value below `pow10(k)` needs at most `k` digits.
pub proof fn lemma_spec_digits_len(n: nat, k: nat)
    requires
        n < pow10(k),
        k >= 1,
    ensures
        spec_digits(n).len() <= k,
    decreases n,
{
    if n >= 10 {
        if k == 1 {
            assert(pow10(1) == 10) by {
                reveal_with_fuel(pow10, 2);
            }
        }
        assert(pow10(k) == 10 * pow10((k - 1) as nat));
        lemma_spec_digits_len(n / 10, (k - 1) as nat);
    }
}

/// Reading the canonical digit text of `v` back, with anything that
/// does not begin with a digit after it, yields `v` exactly.
pub proof fn lemma_parse_number_of_digits(v: nat, rest: Seq<char>)
    requires
        v <= 9999999999,
        rest.len() == 0 || !is_digit(rest[0]),
    ensures
        parse_number(spec_digits(v) + rest) == Some((v, rest)),
{
    let d = spec_digits(v);
    lemma_spec_digits_read_back(v);
    lemma_pow10_10();
    lemma_spec_digits_len(v, 10);
    lemma_run_len_exact(d, rest);
    assert(forall|i: int| 0 <= i < d.len() ==> (d + rest)[i] == d[i]);
    lemma_digits_value_prefix(d + rest, d, d.len() as nat);
    assert((d + rest).skip(d.len() as int) =~= rest);
}

fn digit_str(d: u8) -> (r: &'static str)
    requires
        d < 10,
    ensures
        r@ == seq![digit_char(d as nat)],
{
    proof {
        reveal_strlit("0");
        reveal_strlit("1");
        reveal_strlit("2");
        reveal_strlit("3");
        reveal_strlit("4");
        reveal_strlit("5");
        reveal_strlit("6");
        reveal_strlit("7");
        reveal_strlit("8");
        reveal_strlit("9");
    }
    let r = if d == 0 {
        "0"
    } else if d == 1 {
        "1"
    } else if d == 2 {
        "2"
    } else if d == 3 {
        "3"
    } else if d == 4 {
        "4"
    } else if d == 5 {
        "5"
    } else if d == 6 {
        "6"
    } else if d == 7 {
        "7"
    } else if d == 8 {
        "8"
    } else {
        "9"
    };
    proof {
        assert(r@ =~= seq![digit_char(d as nat)]);
    }
    r
}

/// Decimal text of an unsigned value.
pub fn decimal_text(n: u64) -> (r: String)
    ensures
        r@ == spec_digits(n as nat),
    decreases n,
{
    if n < 10 {
        String::from_str(digit_str(n as u8))
    } else {
        let mut s = decimal_text(n / 10);
        s.append(digit_str((n % 10) as u8));
        proof {
            assert(s@ =~= spec_digits(n as nat));
        }
        s
    }
}

/// Decimal text of a signed identifier.
pub fn int_text(v: i32) -> (r: String)
    ensures
        r@ == spec_int_text(v as int),
{
    if v < 0 {
        let m: i64 = -(v as i64);
        let mut s = String::from_str("-");
        proof {
            reveal_strlit("-");
        }
        let d = decimal_text(m as u64);
        s.append(d.as_str());
        proof {
            assert(s@ =~= spec_int_text(v as int));
        }
        s
    } else {
        decimal_text(v as u64)
    }
}

fn is_digit_exec(c: char) -> (r: bool)
    ensures
        r == is_digit(c),
{
    c == '0' || c == '1' || c == '2' || c == '3' || c == '4' || c == '5' || c == '6' || c == '7'
        || c == '8' || c == '9'
}

fn digit_val_exec(c: char) -> (r: u8)
    requires
        is_digit(c),
    ensures
        r as nat == digit_val(c),
{
    if c == '1' {
        1
    } else if c == '2' {
        2
    } else if c == '3' {
        3
    } else if c == '4' {
        4
    } else if c == '5' {
        5
    } else if c == '6' {
        6
    } else if c == '7' {
        7
    } else if c == '8' {
        8
    } else if c == '9' {
        9
    } else {
        0
    }
}

/// Scans the decimal number that starts at character `i` of `s`,
/// returning its value and the index just past its digits, exactly as
/// `parse_number` reads the text from `i` on.
pub fn scan_number(s: &str, i: usize) -> (r: Option<(u64, usize)>)
    requires
        i <= s@.len(),
    ensures
        match r {
            Some(p) => {
                &&& i < p.1 <= s@.len()
                &&& parse_number(s@.skip(i as int)) == Some((p.0 as nat, s@.skip(p.1 as int)))
            },
            None => parse_number(s@.skip(i as int)) is None,
        },
{
    let ghost sk = s@.skip(i as int);
    let n = s.unicode_len();
    let mut j = i;
    let mut acc: u64 = 0;
    while j < n && is_digit_exec(s.get_char(j))
        invariant
            i <= j <= n,
            j - i <= 10,
            n == s@.len(),
            sk == s@.skip(i as int),
            forall|k: int| i <= k < j ==> is_digit(s@[k]),
            acc as nat == digits_value(sk, (j - i) as nat),
            acc < 10000000000,
        decreases n - j,
    {
        let c = s.get_char(j);
        assert(sk[j - i] == s@[j as int]);
        if j - i == 10 {
            // an eleventh digit: the run is longer than any value in range
            proof {
                let d = s@.subrange(i as int, j + 1);
                assert(forall|k: int| 0 <= k < d.len() ==> is_digit(d[k]));
                assert(sk =~= d + s@.skip(j + 1));
                lemma_run_len_ge(d, s@.skip(j + 1));
            }
            return None;
        }
        let dv = digit_val_exec(c);
        proof {
            lemma_digits_value_bound(sk, (j - i) as nat);
            lemma_pow10_10();
            assert(pow10((j - i) as nat) <= pow10(10)) by {
                lemma_pow10_le((j - i) as nat, 10);
            }
        }
        acc = acc * 10 + (dv as u64);
        j = j + 1;
        proof {
            assert(digits_value(sk, (j - i) as nat) == digits_value(sk, (j - i - 1) as nat) * 10
                + digit_val(sk[j - i - 1]));
            lemma_digits_value_bound(sk, (j - i) as nat);
            assert(pow10((j - i) as nat) <= pow10(10)) by {
                lemma_pow10_le((j - i) as nat, 10);
            }
        }
    }
    proof {
        let d = s@.subrange(i as int, j as int);
        let rest = s@.skip(j as int);
        assert(forall|k: int| 0 <= k < d.len() ==> is_digit(d[k]));
        assert(sk =~= d + rest);
        if j < n {
            assert(rest[0] == s@[j as int]);
            assert(!is_digit(rest[0]));
        }
        lemma_run_len_exact(d, rest);
    }
    if j == i {
        None
    } else {
        Some((acc, j))
    }
}

pub proof fn lemma_pow10_le(a: nat, b: nat)
    requires
        a <= b,
    ensures
        pow10(a) <= pow10(b),
    decreases b,
{
    if a < b && b > 0 {
        lemma_pow10_le(a, (b - 1) as nat);
        assert(pow10(b) == 10 * pow10((b - 1) as nat));
        assert(pow10((b - 1) as nat) >= 1) by {
            lemma_pow10_pos((b - 1) as nat);
        }
    }
}

pub proof fn lemma_pow10_pos(k: nat)
    ensures
        pow10(k) >= 1,
    decreases k,
{
    if k > 0 {
        lemma_pow10_pos((k - 1) as nat);
    }
}

/// Reads the (possibly negative) identifier at the front of `s`,
/// refusing values outside the signed 32-bit range and a minus sign
/// with a zero magnitude.
pub open spec fn parse_int(s: Seq<char>) -> Option<(int, Seq<char>)> {
    if s.len() > 0 && s[0] == '-' {
        match parse_number(s.skip(1)) {
            Some(p) => if 1 <= p.0 <= 0x80000000 {
                Some((-(p.0 as int), p.1))
            } else {
                None
            },
            None => None,
        }
    } else {
        match parse_number(s) {
            Some(p) => if p.0 <= 0x7fffffff {
                Some((p.0 as int, p.1))
            } else {
                None
            },
            None => None,
        }
    }
}

/// Scans the identifier that starts at character `i` of `s`, exactly as
/// `parse_int` reads the text from `i` on.
pub fn scan_int(s: &str, i: usize) -> (r: Option<(i32, usize)>)
    requires
        i <= s@.len(),
    ensures
        match r {
            Some(p) => {
                &&& i < p.1 <= s@.len()
                &&& parse_int(s@.skip(i as int)) == Some((p.0 as int, s@.skip(p.1 as int)))
            },
            None => parse_int(s@.skip(i as int)) is None,
        },
{
    let n = s.unicode_len();
    if i < n && s.get_char(i) == '-' {
        assert(s@.skip(i as int)[0] == s@[i as int]);
        match scan_number(s, i + 1) {
            Some((v, j)) => {
                proof {
                    assert(s@.skip(i as int).skip(1) =~= s@.skip(i + 1));
                }
                if 1 <= v && v <= 0x80000000 {
                    let id: i32 = (-(v as i64)) as i32;
                    Some((id, j))
                } else {
                    None
                }
            },
            None => {
                proof {
                    assert(s@.skip(i as int).skip(1) =~= s@.skip(i + 1));
                }
                None
            },
        }
    } else {
        proof {
            if i < n {
                assert(s@.skip(i as int)[0] == s@[i as int]);
            }
        }
        match scan_number(s, i) {
            Some((v, j)) => {
                if v <= 0x7fffffff {
                    Some((v as i32, j))
                } else {
                    None
                }
            },
            None => None,
        }
    }
}

/// An identifier that reads successfully consumes at least one
/// character.
pub proof fn lemma_parse_int_advances(s: Seq<char>)
    ensures
        parse_int(s) matches Some(p) ==> p.1.len() < s.len(),
{
    lemma_run_len_le(s);
    lemma_run_len_le(s.skip(1));
}

/// Reading the canonical text of an identifier back, with anything
/// that does not begin with a digit after it, yields that identifier.
pub proof fn lemma_parse_int_of_text(v: int, rest: Seq<char>)
    requires
        -0x80000000 <= v <= 0x7fffffff,
        rest.len() == 0 || !is_digit(rest[0]),
    ensures
        parse_int(spec_int_text(v) + rest) == Some((v, rest)),
{
    let s = spec_int_text(v) + rest;
    if v < 0 {
        let m = (-v) as nat;
        assert(s[0] == '-');
        assert(s.skip(1) =~= spec_digits(m) + rest);
        lemma_parse_number_of_digits(m, rest);
    } else {
        lemma_parse_number_of_digits(v as nat, rest);
        lemma_spec_digits_read_back(v as nat);
        assert(s[0] == spec_digits(v as nat)[0]);
        assert(is_digit(s[0]));
        assert(s[0] != '-');
    }
}

} // verus!
