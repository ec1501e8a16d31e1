//! The replay shift: parsing `"HH:MM:SS"`-style text into seconds.
//!
//! The grammar is lenient by design: text that does not fit it yields no
//! value, and the caller treats that as a zero shift rather than an error.

use vstd::prelude::*;

use crate::num::{
    all_digits,
    digit_char,
    in_i64,
    is_digit,
    lemma_dec_u_digits,
    lemma_parse_pad2,
    parse_i64,
    spec_dec_u,
    spec_pad2,
    spec_parse_i64,
};
use crate::text::{lemma_split_at_first, lemma_split_len, lemma_split_no_sep, spec_split, split_str};

verus! {

/// Seconds denoted by shift text: one segment is `SS`, two are `MM:SS`,
/// three are `HH:MM:SS`; each segment a decimal integer, possibly negative.
/// Any other segment count, or a segment that does not parse, has no value.
pub open spec fn spec_shift_val(s: Seq<char>) -> Option<int> {
    let segs = spec_split(s, ':');
    if segs.len() == 1 {
        match spec_parse_i64(segs[0]) {
            Some(v) => Some(v as int),
            None => None,
        }
    } else if segs.len() == 2 {
        match (spec_parse_i64(segs[0]), spec_parse_i64(segs[1])) {
            (Some(m), Some(sv)) => Some(m * 60 + sv),
            _ => None,
        }
    } else if segs.len() == 3 {
        match (spec_parse_i64(segs[0]), spec_parse_i64(segs[1]), spec_parse_i64(segs[2])) {
            (Some(h), Some(m), Some(sv)) => Some(h * 3600 + m * 60 + sv),
            _ => None,
        }
    } else {
        None
    }
}

/// `spec_shift_val`, additionally yielding no value when the combined
/// seconds fall outside the `i64` range.
pub open spec fn spec_shift_secs(s: Seq<char>) -> Option<i64> {
    match spec_shift_val(s) {
        Some(v) => if in_i64(v) {
            Some(v as i64)
        } else {
            None
        },
        None => None,
    }
}

/// The replay command: an optional shift to add to every elapsed time.
pub struct Stamp {
    pub shift: Option<String>,
}

impl Stamp {
    /// Turns the shift text into seconds; `None` when no text was given or
    /// the text does not fit the grammar.
    pub fn shift_in_secs(&self) -> (r: Option<i64>)
        ensures
            self.shift is None ==> r is None,
            self.shift matches Some(t) ==> r == spec_shift_secs(t@),
    {
        let t = match &self.shift {
            None => {
                return None;
            },
            Some(t) => t,
        };
        let segs = split_str(t.as_str(), ':');
        proof {
            lemma_split_len(t@, ':');
        }
        let ghost sg = spec_split(t@, ':');
        if segs.len() == 1 {
            proof {
                assert(segs@[0]@ == sg[0]);
            }
            parse_i64(segs[0].as_str())
        } else if segs.len() == 2 {
            proof {
                assert(segs@[0]@ == sg[0]);
                assert(segs@[1]@ == sg[1]);
            }
            let m = parse_i64(segs[0].as_str());
            let sv = parse_i64(segs[1].as_str());
            match (m, sv) {
                (Some(m), Some(sv)) => {
                    let total: i128 = (m as i128) * 60 + (sv as i128);
                    if i64::MIN as i128 <= total && total <= i64::MAX as i128 {
                        Some(total as i64)
                    } else {
                        None
                    }
                },
                _ => None,
            }
        } else if segs.len() == 3 {
            proof {
                assert(segs@[0]@ == sg[0]);
                assert(segs@[1]@ == sg[1]);
                assert(segs@[2]@ == sg[2]);
            }
            let h = parse_i64(segs[0].as_str());
            let m = parse_i64(segs[1].as_str());
            let sv = parse_i64(segs[2].as_str());
            match (h, m, sv) {
                (Some(h), Some(m), Some(sv)) => {
                    let total: i128 = (h as i128) * 3600 + (m as i128) * 60 + (sv as i128);
                    if i64::MIN as i128 <= total && total <= i64::MAX as i128 {
                        Some(total as i64)
                    } else {
                        None
                    }
                },
                _ => None,
            }
        } else {
            None
        }
    }
}

/// The shift text `H:MM:SS`: hours unpadded, minutes and seconds zero-padded
/// to two digits.
pub open spec fn spec_shift_text(h: int, m: int, s: int) -> Seq<char> {
    spec_dec_u(h) + seq![':'] + spec_pad2(m) + seq![':'] + spec_pad2(s)
}

/// Pieces of the round-trip argument: a clock component rendered with
/// `spec_pad2` is all digits.
proof fn lemma_pad2_digits(x: int)
    requires
        0 <= x <= 99,
    ensures
        all_digits(spec_pad2(x)),
        1 <= spec_pad2(x).len() <= 2,
{
    if x < 10 {
        assert(spec_pad2(x) == seq!['0', digit_char(x)]);
        assert(is_digit(digit_char(x)));
        assert(all_digits(spec_pad2(x)));
    } else {
        lemma_dec_u_digits(x);
        assert(spec_pad2(x) == spec_dec_u(x));
        assert(spec_dec_u(x) == spec_dec_u(x / 10) + seq![digit_char(x % 10)]);
        lemma_dec_u_digits(x / 10);
    }
}

/// Round trip of the documented grammar: for every clock reading
/// `h < 24, m < 60, s < 60`, rendering it as `H:MM:SS` and parsing the text
/// back gives exactly `h*3600 + m*60 + s` seconds.
pub proof fn lemma_shift_round_trip(h: int, m: int, s: int)
    requires
        0 <= h < 24,
        0 <= m < 60,
        0 <= s < 60,
    ensures
        spec_shift_secs(spec_shift_text(h, m, s)) == Some((h * 3600 + m * 60 + s) as i64),
{
    let hs = spec_dec_u(h);
    let ms = spec_pad2(m);
    let ss = spec_pad2(s);
    let t = spec_shift_text(h, m, s);
    lemma_dec_u_digits(h);
    lemma_pad2_digits(m);
    lemma_pad2_digits(s);
    assert(forall|i: int| 0 <= i < hs.len() ==> is_digit(#[trigger] hs[i]) && hs[i] != ':');
    assert(forall|i: int| 0 <= i < ms.len() ==> is_digit(#[trigger] ms[i]) && ms[i] != ':');
    assert(forall|i: int| 0 <= i < ss.len() ==> is_digit(#[trigger] ss[i]) && ss[i] != ':');
    assert(t[hs.len() as int] == ':');
    assert(forall|j: int| 0 <= j < hs.len() ==> t[j] == hs[j] && t[j] != ':');
    lemma_split_at_first(t, ':', hs.len() as int);
    assert(t.take(hs.len() as int) =~= hs);
    let t2 = ms + seq![':'] + ss;
    assert(t.skip(hs.len() as int + 1) =~= t2);
    assert(t2[ms.len() as int] == ':');
    assert(forall|j: int| 0 <= j < ms.len() ==> t2[j] == ms[j] && t2[j] != ':');
    lemma_split_at_first(t2, ':', ms.len() as int);
    assert(t2.take(ms.len() as int) =~= ms);
    assert(t2.skip(ms.len() as int + 1) =~= ss);
    lemma_split_no_sep(ss, ':');
    let segs = spec_split(t, ':');
    assert(segs =~= seq![hs] + (seq![ms] + seq![ss]));
    assert(segs.len() == 3);
    assert(segs[0] == hs && segs[1] == ms && segs[2] == ss);
    assert(hs[0] != '-' && hs[0] != '+');
    assert(spec_parse_i64(hs) == Some(h as i64));
    lemma_parse_pad2(m);
    lemma_parse_pad2(s);
    assert(spec_shift_val(t) == Some(h * 3600 + m * 60 + s));
}

/// Shift text with four or more colon-separated segments has no value.
/// (A split never has zero segments, so the other malformed count cannot
/// arise.)
pub proof fn lemma_shift_too_many_segments(s: Seq<char>)
    requires
        spec_split(s, ':').len() >= 4,
    ensures
        spec_shift_secs(s) is None,
{
}

/// Shift text in which some segment is not a decimal integer has no value.
pub proof fn lemma_shift_bad_segment(s: Seq<char>, i: int)
    requires
        0 <= i < spec_split(s, ':').len(),
        spec_parse_i64(spec_split(s, ':')[i]) is None,
    ensures
        spec_shift_secs(s) is None,
{
}

} // verus!
