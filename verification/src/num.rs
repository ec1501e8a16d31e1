//! Decimal text: parsing signed integers and rendering them back.
//!
//! The log format stores every timestamp as decimal text, and the shift
//! grammar is built from decimal segments, so both directions are specified
//! here over sequences of characters.

use vstd::prelude::*;

verus! {

/// A decimal digit character.
pub open spec fn is_digit(c: char) -> bool {
    48 <= c as u32 <= 57
}

/// Numeric value of a digit character.
pub open spec fn digit_val(c: char) -> int {
    c as u32 - 48
}

/// The digit character for a value in `0..=9`.
pub open spec fn digit_char(d: int) -> char {
    if d == 0 {
        '0'
    } else if d == 1 {
        '1'
    } else if d == 2 {
        '2'
    } else if d == 3 {
        '3'
    } else if d == 4 {
        '4'
    } else if d == 5 {
        '5'
    } else if d == 6 {
        '6'
    } else if d == 7 {
        '7'
    } else if d == 8 {
        '8'
    } else {
        '9'
    }
}

pub open spec fn all_digits(s: Seq<char>) -> bool {
    forall|i: int| 0 <= i < s.len() ==> is_digit(s[i])
}

/// Value of a digit string, most significant digit first.
pub open spec fn digits_val(s: Seq<char>) -> int
    decreases s.len(),
{
    if s.len() == 0 {
        0
    } else {
        digits_val(s.drop_last()) * 10 + digit_val(s.last())
    }
}

/// A non-empty all-digit string parses to its value; anything else fails.
pub open spec fn spec_parse_digits(ds: Seq<char>) -> Option<int> {
    if ds.len() > 0 && all_digits(ds) {
        Some(digits_val(ds))
    } else {
        None
    }
}

/// An optional single leading `-` or `+`, then one or more digits.
pub open spec fn spec_parse_int(s: Seq<char>) -> Option<int> {
    if s.len() == 0 {
        None
    } else if s[0] == '-' {
        match spec_parse_digits(s.skip(1)) {
            Some(v) => Some(-v),
            None => None,
        }
    } else if s[0] == '+' {
        spec_parse_digits(s.skip(1))
    } else {
        spec_parse_digits(s)
    }
}

pub open spec fn in_i64(v: int) -> bool {
    i64::MIN <= v <= i64::MAX
}

/// `spec_parse_int`, additionally rejecting values outside the `i64` range.
pub open spec fn spec_parse_i64(s: Seq<char>) -> Option<i64> {
    match spec_parse_int(s) {
        Some(v) => if in_i64(v) {
            Some(v as i64)
        } else {
            None
        },
        None => None,
    }
}

/// Decimal rendering of a non-negative value, no leading zeros.
pub open spec fn spec_dec_u(n: int) -> Seq<char>
    decreases n,
{
    if n <= 9 {
        seq![digit_char(n)]
    } else {
        spec_dec_u(n / 10) + seq![digit_char(n % 10)]
    }
}

/// Decimal rendering of a signed value, `-` prefix when negative.
pub open spec fn spec_dec_i(v: int) -> Seq<char> {
    if v < 0 {
        seq!['-'] + spec_dec_u(-v)
    } else {
        spec_dec_u(v)
    }
}

pub proof fn lemma_digits_val_nonneg(s: Seq<char>)
    requires
        all_digits(s),
    ensures
        digits_val(s) >= 0,
    decreases s.len(),
{
    if s.len() > 0 {
        assert(all_digits(s.drop_last()));
        lemma_digits_val_nonneg(s.drop_last());
    }
}

/// Extending a digit string can only grow its value.
pub proof fn lemma_digits_val_prefix(s: Seq<char>, m: int)
    requires
        all_digits(s),
        0 <= m <= s.len(),
    ensures
        digits_val(s) >= digits_val(s.subrange(0, m)),
    decreases s.len(),
{
    if m == s.len() {
        assert(s.subrange(0, m) =~= s);
    } else {
        assert(all_digits(s.drop_last()));
        assert(s.drop_last().subrange(0, m) =~= s.subrange(0, m));
        lemma_digits_val_prefix(s.drop_last(), m);
        lemma_digits_val_nonneg(s.drop_last());
    }
}

/// How `spec_parse_int` looks after the sign prefix has been classified.
proof fn lemma_parse_shape(s: Seq<char>, start: int)
    requires
        s.len() > start,
        (start == 1 && (s[0] == '-' || s[0] == '+')) || (start == 0 && s[0] != '-' && s[0] != '+'),
    ensures
        spec_parse_int(s) == (match spec_parse_digits(s.skip(start)) {
            Some(v) => Some(if s[0] == '-' { -v } else { v }),
            None => None::<int>,
        }),
{
    if start == 0 {
        assert(s.skip(0) =~= s);
    }
}

/// Parses the whole of `s` as a decimal integer, as `str::parse::<i64>` does:
/// an optional leading `-` or `+`, then one or more digits, the value within
/// the `i64` range; anything else yields `None`.
pub fn parse_i64(s: &str) -> (r: Option<i64>)
    ensures
        r == spec_parse_i64(s@),
{
    let n = s.unicode_len();
    if n == 0 {
        return None;
    }
    let c0 = s.get_char(0);
    let start: usize = if c0 == '-' || c0 == '+' {
        1
    } else {
        0
    };
    let neg = c0 == '-';
    if start == n {
        // a bare sign has no digits
        assert(s@.skip(1).len() == 0);
        return None;
    }
    let ghost ds: Seq<char> = s@.skip(start as int);
    let mut acc: u128 = 0;
    let mut j: usize = start;
    while j < n
        invariant
            start <= j <= n,
            1 <= n == s@.len(),
            ds == s@.skip(start as int),
            (start == 1 && (s@[0] == '-' || s@[0] == '+')) || (start == 0 && s@[0] != '-' && s@[0]
                != '+'),
            neg == (s@[0] == '-'),
            forall|k: int| start <= k < j ==> is_digit(s@[k]),
            acc == digits_val(s@.subrange(start as int, j as int)),
            acc <= 0x8000_0000_0000_0000u128,
        decreases n - j,
    {
        let c = s.get_char(j);
        let cv = c as u32;
        if cv < 48 || cv > 57 {
            // a non-digit anywhere after the sign makes the parse fail
            proof {
                lemma_parse_shape(s@, start as int);
                assert(ds[j - start] == s@[j as int]);
                assert(!is_digit(ds[j - start]));
                assert(spec_parse_digits(ds) is None);
            }
            return None;
        }
        let d = (cv - 48) as u128;
        let ghost prefix = s@.subrange(start as int, j as int);
        acc = acc * 10 + d;
        proof {
            let ext = s@.subrange(start as int, j + 1);
            assert(ext.drop_last() =~= prefix);
            assert(ext.last() == s@[j as int]);
        }
        j += 1;
        if acc > 0x8000_0000_0000_0000u128 {
            // the digits seen already exceed the i64 range, whatever follows
            proof {
                lemma_parse_shape(s@, start as int);
                if spec_parse_digits(ds) is Some {
                    let prefix2 = s@.subrange(start as int, j as int);
                    assert(prefix2 =~= ds.subrange(0, j - start));
                    lemma_digits_val_prefix(ds, j - start);
                    assert(digits_val(ds) > i64::MAX);
                    assert(!in_i64(digits_val(ds)) && !in_i64(-digits_val(ds)));
                }
            }
            return None;
        }
    }
    proof {
        lemma_parse_shape(s@, start as int);
        assert(s@.subrange(start as int, n as int) =~= ds);
        assert(all_digits(ds));
        assert(spec_parse_digits(ds) == Some(digits_val(ds)));
        assert(digits_val(ds) == acc as int);
    }
    if neg {
        if acc == 0x8000_0000_0000_0000u128 {
            Some(i64::MIN)
        } else {
            Some(-(acc as i64))
        }
    } else {
        if acc == 0x8000_0000_0000_0000u128 {
            // +9223372036854775808 is one past i64::MAX
            None
        } else {
            Some(acc as i64)
        }
    }
}

/// The digits of `ds` as characters, last digit of `ds` first.
pub open spec fn rev_chars(ds: Seq<u8>) -> Seq<char> {
    Seq::new(ds.len(), |i: int| digit_char(ds[ds.len() - 1 - i] as int))
}

fn digit_str(d: u8) -> (r: &'static str)
    requires
        d <= 9,
    ensures
        r@ == seq![digit_char(d as int)],
{
    proof {
        reveal_strlit("0");
        reveal_strlit("1");
        reveal_strlit("2");
        reveal_strlit("3");
        reveal_strlit("4");
        reveal_strlit("5");
        reveal_strlit("6");
        reveal_strlit("7");
        reveal_strlit("8");
        reveal_strlit("9");
        assert("0"@ =~= seq![digit_char(0)]);
        assert("1"@ =~= seq![digit_char(1)]);
        assert("2"@ =~= seq![digit_char(2)]);
        assert("3"@ =~= seq![digit_char(3)]);
        assert("4"@ =~= seq![digit_char(4)]);
        assert("5"@ =~= seq![digit_char(5)]);
        assert("6"@ =~= seq![digit_char(6)]);
        assert("7"@ =~= seq![digit_char(7)]);
        assert("8"@ =~= seq![digit_char(8)]);
        assert("9"@ =~= seq![digit_char(9)]);
    }
    if d == 0 {
        "0"
    } else if d == 1 {
        "1"
    } else if d == 2 {
        "2"
    } else if d == 3 {
        "3"
    } else if d == 4 {
        "4"
    } else if d == 5 {
        "5"
    } else if d == 6 {
        "6"
    } else if d == 7 {
        "7"
    } else if d == 8 {
        "8"
    } else {
        "9"
    }
}

/// Renders a non-negative value in decimal, no leading zeros.
pub fn format_u128(n: u128) -> (r: String)
    ensures
        r@ == spec_dec_u(n as int),
{
    let mut ds: Vec<u8> = Vec::new();
    let mut m: u128 = n;
    proof {
        assert(spec_dec_u(n as int) + rev_chars(ds@) =~= spec_dec_u(n as int));
    }
    while m > 9
        invariant
            spec_dec_u(n as int) == spec_dec_u(m as int) + rev_chars(ds@),
            forall|k: int| 0 <= k < ds@.len() ==> ds@[k] <= 9,
        decreases m,
    {
        let d: u8 = (m % 10) as u8;
        let ghost ds0 = ds@;
        ds.push(d);
        proof {
            assert(rev_chars(ds@) =~= seq![digit_char(d as int)] + rev_chars(ds0));
            assert(spec_dec_u(m as int) + rev_chars(ds0) =~= spec_dec_u((m / 10) as int) + (seq![
                digit_char(d as int),
            ] + rev_chars(ds0)));
        }
        m = m / 10;
    }
    let d: u8 = m as u8;
    let ghost ds0 = ds@;
    ds.push(d);
    proof {
        assert(rev_chars(ds@) =~= seq![digit_char(d as int)] + rev_chars(ds0));
        assert(spec_dec_u(m as int) == seq![digit_char(d as int)]);
        assert(spec_dec_u(n as int) =~= rev_chars(ds@));
    }
    let ghost target = spec_dec_u(n as int);
    let mut out = String::new();
    let mut i: usize = ds.len();
    proof {
        assert(out@ =~= target.take(ds@.len() - i));
    }
    while i > 0
        invariant
            i <= ds@.len(),
            target == rev_chars(ds@),
            forall|k: int| 0 <= k < ds@.len() ==> ds@[k] <= 9,
            out@ == target.take(ds@.len() - i),
        decreases i,
    {
        i -= 1;
        let c = ds[i];
        out.append(digit_str(c));
        proof {
            assert(target[ds@.len() - i - 1] == digit_char(ds@[i as int] as int));
            assert(out@ =~= target.take(ds@.len() - i));
        }
    }
    proof {
        assert(target.take(ds@.len() - 0) =~= target);
    }
    out
}

/// Renders a signed value in decimal, `-` prefix when negative.
pub fn format_i64(v: i64) -> (r: String)
    ensures
        r@ == spec_dec_i(v as int),
{
    if v < 0 {
        let mag: u128 = (-(v as i128)) as u128;
        let mut out = String::from_str("-");
        proof {
            reveal_strlit("-");
        }
        let digits = format_u128(mag);
        out.append(digits.as_str());
        proof {
            assert(out@ =~= seq!['-'] + spec_dec_u(-(v as int)));
        }
        out
    } else {
        format_u128(v as u128)
    }
}

/// Two-digit zero-padded rendering for `0..=9`; plain signed rendering
/// otherwise, as `format!("{:02}")` behaves.
pub open spec fn spec_pad2(x: int) -> Seq<char> {
    if 0 <= x < 10 {
        seq!['0', digit_char(x)]
    } else {
        spec_dec_i(x)
    }
}

/// Renders a value zero-padded to two digits.
pub fn format_pad2(x: i64) -> (r: String)
    ensures
        r@ == spec_pad2(x as int),
{
    if 0 <= x && x < 10 {
        let mut out = String::from_str("0");
        proof {
            reveal_strlit("0");
        }
        out.append(digit_str(x as u8));
        proof {
            assert(out@ =~= seq!['0', digit_char(x as int)]);
        }
        out
    } else {
        format_i64(x)
    }
}

/// Rendering a non-negative value gives a non-empty all-digit string whose
/// value is the one rendered.
pub proof fn lemma_dec_u_digits(n: int)
    requires
        n >= 0,
    ensures
        all_digits(spec_dec_u(n)),
        spec_dec_u(n).len() >= 1,
        digits_val(spec_dec_u(n)) == n,
    decreases n,
{
    if n <= 9 {
        let s = spec_dec_u(n);
        assert(s == seq![digit_char(n)]);
        assert(is_digit(digit_char(n)));
        assert(s.drop_last() =~= Seq::<char>::empty());
        assert(s.last() == digit_char(n));
        assert(digits_val(s.drop_last()) == 0);
        assert(digits_val(s) == digit_val(digit_char(n)));
        assert(digit_val(digit_char(n)) == n);
    } else {
        lemma_dec_u_digits(n / 10);
        let s = spec_dec_u(n);
        let p = spec_dec_u(n / 10);
        assert(s == p + seq![digit_char(n % 10)]);
        assert(s.drop_last() =~= p);
        assert(s.last() == digit_char(n % 10));
        assert(digit_val(digit_char(n % 10)) == n % 10);
        assert(digits_val(s) == (n / 10) * 10 + n % 10);
        assert(forall|i: int| 0 <= i < s.len() ==> is_digit(s[i]));
    }
}

/// Rendering then parsing is the identity, for every integer.
pub proof fn lemma_parse_dec_i(v: int)
    ensures
        spec_parse_int(spec_dec_i(v)) == Some(v),
{
    if v < 0 {
        lemma_dec_u_digits(-v);
        let s = spec_dec_i(v);
        assert(s == seq!['-'] + spec_dec_u(-v));
        assert(s[0] == '-');
        assert(s.skip(1) =~= spec_dec_u(-v));
        assert(spec_parse_digits(s.skip(1)) == Some(-v));
    } else {
        lemma_dec_u_digits(v);
        let s = spec_dec_i(v);
        assert(s == spec_dec_u(v));
        assert(is_digit(s[0]));
        assert(s[0] != '-' && s[0] != '+');
        assert(spec_parse_digits(s) == Some(v));
    }
}

/// A signed decimal rendering holds nothing but digits and a leading minus.
pub proof fn lemma_dec_i_chars(v: int)
    ensures
        spec_dec_i(v).len() >= 1,
        forall|j: int|
            0 <= j < spec_dec_i(v).len() ==> (#[trigger] spec_dec_i(v)[j] == '-' || is_digit(
                spec_dec_i(v)[j],
            )),
{
    if v < 0 {
        lemma_dec_u_digits(-v);
        assert(spec_dec_i(v) == seq!['-'] + spec_dec_u(-v));
        assert(forall|j: int|
            1 <= j < spec_dec_i(v).len() ==> spec_dec_i(v)[j] == spec_dec_u(-v)[j - 1]);
    } else {
        lemma_dec_u_digits(v);
    }
}

/// Parsing a two-digit zero-padded rendering recovers the value.
pub proof fn lemma_parse_pad2(x: int)
    requires
        0 <= x <= 99,
    ensures
        spec_parse_i64(spec_pad2(x)) == Some(x as i64),
{
    if x < 10 {
        let s = spec_pad2(x);
        assert(s == seq!['0', digit_char(x)]);
        assert(is_digit(s[0]) && is_digit(s[1]));
        assert(all_digits(s));
        assert(s.drop_last() =~= seq!['0']);
        assert(seq!['0'].drop_last() =~= Seq::<char>::empty());
        assert(digits_val(Seq::<char>::empty()) == 0);
        assert(seq!['0'].last() == '0');
        assert(digit_val('0') == 0);
        assert(digits_val(seq!['0']) == 0);
        assert(digits_val(s) == 0 * 10 + digit_val(digit_char(x)));
        assert(s[0] != '-' && s[0] != '+');
    } else {
        lemma_parse_dec_i(x);
    }
}

/// Rendering then parsing is the identity on every `i64`.
pub proof fn lemma_parse_dec_i64(v: i64)
    ensures
        spec_parse_i64(spec_dec_i(v as int)) == Some(v),
{
    lemma_parse_dec_i(v as int);
}

} // verus!
