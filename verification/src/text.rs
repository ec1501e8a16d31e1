//! Splitting text on a separator character.
//!
//! The log format is line- and comma-oriented and the shift grammar is
//! colon-oriented, so a single splitting function, specified as Rust's
//! `str::split` behaves (n separators give n + 1 segments, empty segments
//! included), serves all three.

use vstd::prelude::*;

verus! {

/// All the segments of `s` between occurrences of `sep`.
pub open spec fn spec_split(s: Seq<char>, sep: char) -> Seq<Seq<char>>
    decreases s.len(),
{
    if s.len() == 0 {
        seq![Seq::<char>::empty()]
    } else {
        let rest = spec_split(s.skip(1), sep);
        if s[0] == sep {
            seq![Seq::<char>::empty()] + rest
        } else {
            seq![seq![s[0]] + rest[0]] + rest.skip(1)
        }
    }
}

pub proof fn lemma_split_len(s: Seq<char>, sep: char)
    ensures
        spec_split(s, sep).len() >= 1,
    decreases s.len(),
{
    if s.len() > 0 {
        lemma_split_len(s.skip(1), sep);
    }
}

/// A separator-free string is a single segment.
pub proof fn lemma_split_no_sep(s: Seq<char>, sep: char)
    requires
        forall|i: int| 0 <= i < s.len() ==> s[i] != sep,
    ensures
        spec_split(s, sep) == seq![s],
    decreases s.len(),
{
    if s.len() == 0 {
        assert(spec_split(s, sep) =~~= seq![s]);
    } else {
        assert(forall|i: int| 0 <= i < s.skip(1).len() ==> s.skip(1)[i] != sep);
        lemma_split_no_sep(s.skip(1), sep);
        let rest = spec_split(s.skip(1), sep);
        assert(rest[0] == s.skip(1));
        assert(seq![s[0]] + s.skip(1) =~= s);
        assert(rest.skip(1) =~= Seq::<Seq<char>>::empty());
        assert(spec_split(s, sep) =~~= seq![s]);
    }
}

/// Splitting at the first occurrence of the separator.
pub proof fn lemma_split_at_first(s: Seq<char>, sep: char, i: int)
    requires
        0 <= i < s.len(),
        s[i] == sep,
        forall|j: int| 0 <= j < i ==> s[j] != sep,
    ensures
        spec_split(s, sep) == seq![s.take(i)] + spec_split(s.skip(i + 1), sep),
    decreases i,
{
    if i == 0 {
        assert(s.take(0) =~= Seq::<char>::empty());
        assert(spec_split(s, sep) =~~= seq![s.take(0)] + spec_split(s.skip(1), sep));
    } else {
        let s1 = s.skip(1);
        assert(s1[i - 1] == sep);
        assert(forall|j: int| 0 <= j < i - 1 ==> s1[j] != sep);
        lemma_split_at_first(s1, sep, i - 1);
        let rest = spec_split(s1, sep);
        assert(rest == seq![s1.take(i - 1)] + spec_split(s1.skip(i), sep));
        assert(rest[0] == s1.take(i - 1));
        assert(seq![s[0]] + s1.take(i - 1) =~= s.take(i));
        assert(rest.skip(1) =~= spec_split(s1.skip(i), sep));
        assert(s1.skip(i) =~= s.skip(i + 1));
        assert(spec_split(s, sep) =~~= seq![s.take(i)] + spec_split(s.skip(i + 1), sep));
    }
}

/// Peeling one separator-free segment off the front of a split.
pub proof fn lemma_split_prefix(a: Seq<char>, sep: char, b: Seq<char>)
    requires
        forall|j: int| 0 <= j < a.len() ==> a[j] != sep,
    ensures
        spec_split(a + seq![sep] + b, sep) == seq![a] + spec_split(b, sep),
{
    let s = a + seq![sep] + b;
    assert(s[a.len() as int] == sep);
    assert(forall|j: int| 0 <= j < a.len() ==> s[j] == a[j]);
    lemma_split_at_first(s, sep, a.len() as int);
    assert(s.take(a.len() as int) =~= a);
    assert(s.skip(a.len() as int + 1) =~= b);
}

pub open spec fn has_char(s: Seq<char>, c: char) -> bool {
    exists|i: int| 0 <= i < s.len() && s[i] == c
}

/// Index of the first occurrence of `c` in `s`, or `s.len()` if there is none.
pub open spec fn spec_first_idx(s: Seq<char>, c: char) -> int
    decreases s.len(),
{
    if s.len() == 0 {
        0
    } else if s[0] == c {
        0
    } else {
        1 + spec_first_idx(s.skip(1), c)
    }
}

pub proof fn lemma_first_idx(s: Seq<char>, c: char)
    ensures
        0 <= spec_first_idx(s, c) <= s.len(),
        has_char(s, c) ==> spec_first_idx(s, c) < s.len() && s[spec_first_idx(s, c)] == c,
        !has_char(s, c) ==> spec_first_idx(s, c) == s.len(),
        forall|j: int| 0 <= j < spec_first_idx(s, c) ==> s[j] != c,
    decreases s.len(),
{
    if s.len() > 0 && s[0] != c {
        lemma_first_idx(s.skip(1), c);
        if has_char(s, c) {
            let w = choose|i: int| 0 <= i < s.len() && s[i] == c;
            assert(s.skip(1)[w - 1] == c);
            assert(has_char(s.skip(1), c));
        }
        if has_char(s.skip(1), c) {
            let w = choose|i: int| 0 <= i < s.skip(1).len() && s.skip(1)[i] == c;
            assert(s[w + 1] == c);
            assert(has_char(s, c));
        }
        assert(forall|j: int| 1 <= j < spec_first_idx(s, c) ==> s[j] == s.skip(1)[j - 1]);
    }
}

/// First occurrence of `c` in `s`, scanning left to right.
pub fn find_first(s: &str, c: char) -> (r: Option<usize>)
    ensures
        r == (if has_char(s@, c) {
            Some(spec_first_idx(s@, c) as usize)
        } else {
            None::<usize>
        }),
{
    let n = s.unicode_len();
    let mut i: usize = 0;
    while i < n
        invariant
            i <= n == s@.len() <= usize::MAX,
            forall|j: int| 0 <= j < i ==> s@[j] != c,
        decreases n - i,
    {
        if s.get_char(i) == c {
            proof {
                lemma_first_idx(s@, c);
                assert(has_char(s@, c));
            }
            return Some(i);
        }
        i += 1;
    }
    proof {
        assert(!has_char(s@, c));
    }
    None
}

/// Splits `s` into the segments between occurrences of `sep`.
pub fn split_str(s: &str, sep: char) -> (r: Vec<String>)
    ensures
        r.deep_view() == spec_split(s@, sep),
{
    let n = s.unicode_len();
    let mut parts: Vec<String> = Vec::new();
    let mut from: usize = 0;
    let mut i: usize = 0;
    proof {
        assert(parts.deep_view() =~~= Seq::<Seq<char>>::empty());
        assert(s@.skip(0) =~= s@);
    }
    while i < n
        invariant
            from <= i <= n,
            n == s@.len(),
            forall|j: int| from <= j < i ==> s@[j] != sep,
            spec_split(s@, sep) == parts.deep_view() + spec_split(s@.skip(from as int), sep),
        decreases n - i,
    {
        let c = s.get_char(i);
        if c == sep {
            let seg = s.substring_char(from, i);
            let part = String::from_str(seg);
            let ghost parts0 = parts.deep_view();
            parts.push(part);
            proof {
                let tail = s@.skip(from as int);
                assert(tail[i - from] == sep);
                assert(forall|j: int| 0 <= j < i - from ==> tail[j] == s@[from + j] && tail[j]
                    != sep);
                lemma_split_at_first(tail, sep, i - from);
                assert(tail.take(i - from) =~= s@.subrange(from as int, i as int));
                assert(tail.skip(i - from + 1) =~= s@.skip(i + 1));
                assert(parts.deep_view() =~~= parts0 + seq![s@.subrange(from as int, i as int)]);
                assert(parts0 + (seq![tail.take(i - from)] + spec_split(s@.skip(i + 1), sep))
                    =~~= parts.deep_view() + spec_split(s@.skip(i + 1), sep));
            }
            from = i + 1;
        }
        i += 1;
    }
    let seg = s.substring_char(from, n);
    let part = String::from_str(seg);
    let ghost parts0 = parts.deep_view();
    parts.push(part);
    proof {
        let tail = s@.skip(from as int);
        assert(forall|j: int| 0 <= j < tail.len() ==> tail[j] == s@[from + j] && tail[j] != sep);
        lemma_split_no_sep(tail, sep);
        assert(tail =~= s@.subrange(from as int, n as int));
        assert(parts.deep_view() =~~= parts0 + seq![tail]);
    }
    parts
}

} // verus!
