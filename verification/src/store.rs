//! The log store: file naming, selection of the active log, and the exact
//! bytes that create or extend a log.
//!
//! A log is a file named `<epoch-seconds>.csv`. Its content is zero or more
//! completed `timestamp,message` lines followed by one open `timestamp,`
//! placeholder with no trailing newline. The active log is the one whose
//! name carries the numerically greatest timestamp. The filesystem itself is
//! the caller's affair: this module only computes names, stamps and bytes.

use vstd::prelude::*;

use crate::num::{
    format_i64,
    is_digit,
    lemma_dec_u_digits,
    lemma_parse_dec_i64,
    spec_dec_i,
    spec_dec_u,
    spec_parse_i64,
};
use crate::text::{lemma_split_at_first, lemma_split_no_sep, spec_split, split_str};

verus! {

/// The timestamp a log file name carries: the name must be the decimal
/// rendering of an `i64` followed by `.csv`; any other name carries none.
pub open spec fn spec_log_stamp(name: Seq<char>) -> Option<i64> {
    let segs = spec_split(name, '.');
    if segs.len() == 2 && segs[1] == "csv"@ {
        spec_parse_i64(segs[0])
    } else {
        None
    }
}

/// File name of the log created at `t`.
pub open spec fn spec_log_file_name(t: i64) -> Seq<char> {
    spec_dec_i(t as int) + ".csv"@
}

/// Initial content of a fresh log: one open placeholder entry, no newline.
pub open spec fn spec_initial_content(t: i64) -> Seq<char> {
    spec_dec_i(t as int) + seq![',']
}

/// Bytes an append adds at the end of the active log: the message text that
/// closes the open entry, then a fresh open placeholder stamped `t`.
pub open spec fn spec_append_content(msg: Seq<char>, t: i64) -> Seq<char> {
    msg + seq!['\n'] + spec_dec_i(t as int) + seq![',']
}

/// Reads the timestamp out of a log file name, if the name is one.
pub fn log_stamp(name: &str) -> (r: Option<i64>)
    ensures
        r == spec_log_stamp(name@),
{
    let segs = split_str(name, '.');
    let ghost sg = spec_split(name@, '.');
    if segs.len() == 2 {
        proof {
            assert(segs@[0]@ == sg[0]);
            assert(segs@[1]@ == sg[1]);
        }
        let csv = String::from_str("csv");
        if segs[1] == csv {
            crate::num::parse_i64(segs[0].as_str())
        } else {
            None
        }
    } else {
        None
    }
}

/// One step of the fold: a better stamp displaces the best so far.
pub open spec fn spec_step(acc: Option<i64>, name: Seq<char>) -> Option<i64> {
    match spec_log_stamp(name) {
        Some(t) => match acc {
            None => Some(t),
            Some(a) => if a < t {
                Some(t)
            } else {
                Some(a)
            },
        },
        None => acc,
    }
}

/// The greatest stamp carried by `names`, folded left with `acc` as the best
/// so far; an earlier name wins a tie.
pub open spec fn spec_find_from(names: Seq<Seq<char>>, acc: Option<i64>) -> Option<i64>
    decreases names.len(),
{
    if names.len() == 0 {
        acc
    } else {
        spec_find_from(names.skip(1), spec_step(acc, names[0]))
    }
}

/// The stamp of the active log among `names`, if any name is a log's.
pub open spec fn spec_find_active(names: Seq<Seq<char>>) -> Option<i64> {
    spec_find_from(names, None)
}

/// Scans directory entry names and returns the stamp of the active log:
/// the numerically greatest among the validly named ones. Names that are
/// not `<integer>.csv` are ignored, not errors.
pub fn find_active(names: &Vec<String>) -> (r: Option<i64>)
    ensures
        r == spec_find_active(names.deep_view()),
{
    let ghost all = names.deep_view();
    let mut best: Option<i64> = None;
    let mut i: usize = 0;
    proof {
        assert(all.skip(0) =~= all);
    }
    while i < names.len()
        invariant
            i <= names@.len(),
            all == names.deep_view(),
            spec_find_active(all) == spec_find_from(all.skip(i as int), best),
        decreases names@.len() - i,
    {
        let st = log_stamp(names[i].as_str());
        proof {
            assert(all.skip(i as int)[0] == names@[i as int]@);
            assert(all.skip(i as int).skip(1) =~= all.skip(i as int + 1));
        }
        match st {
            Some(t) => {
                match best {
                    None => {
                        best = Some(t);
                    },
                    Some(a) => {
                        if a < t {
                            best = Some(t);
                        }
                    },
                }
            },
            None => {},
        }
        i += 1;
    }
    proof {
        assert(all.skip(all.len() as int) =~= Seq::<Seq<char>>::empty());
    }
    best
}

/// Builds the file name of a log created at `t`.
pub fn log_file_name(t: i64) -> (r: String)
    ensures
        r@ == spec_log_file_name(t),
{
    let mut out = format_i64(t);
    out.append(".csv");
    out
}

/// Builds the initial content of a fresh log.
pub fn initial_content(t: i64) -> (r: String)
    ensures
        r@ == spec_initial_content(t),
{
    let mut out = format_i64(t);
    out.append(",");
    proof {
        reveal_strlit(",");
        assert(out@ =~= spec_dec_i(t as int) + seq![',']);
    }
    out
}

/// Builds the bytes an append writes.
pub fn append_content(msg: &str, t: i64) -> (r: String)
    ensures
        r@ == spec_append_content(msg@, t),
{
    let mut out = String::from_str(msg);
    out.append("\n");
    let d = format_i64(t);
    out.append(d.as_str());
    out.append(",");
    proof {
        reveal_strlit("\n");
        reveal_strlit(",");
        assert(out@ =~= spec_append_content(msg@, t));
    }
    out
}

/// Relies on chrono's `Utc::now` and `DateTime::timestamp`: whole seconds
/// since the Unix epoch at the moment of the call. The clock decides the
/// value, so nothing is promised of it. (chrono's `Utc::now` aborts if the
/// system clock reads before the epoch.)
#[verifier::external_body]
pub fn now_timestamp() -> i64 {
    chrono::Utc::now().timestamp()
}

/// Everything a new log needs: the creation time, the file to create, and
/// its initial content (one open placeholder entry).
pub fn start_log() -> (r: (i64, String, String))
    ensures
        r.1@ == spec_log_file_name(r.0),
        r.2@ == spec_initial_content(r.0),
{
    let t = now_timestamp();
    let name = log_file_name(t);
    let content = initial_content(t);
    (t, name, content)
}

/// The timestamp and bytes of one append, stamped now.
pub fn append_record(msg: &str) -> (r: (i64, String))
    ensures
        r.1@ == spec_append_content(msg@, r.0),
{
    let t = now_timestamp();
    let content = append_content(msg, t);
    (t, content)
}

/// A log's own file name always carries its creation stamp back.
pub proof fn lemma_log_name_stamp(t: i64)
    ensures
        spec_log_stamp(spec_log_file_name(t)) == Some(t),
{
    reveal_strlit(".csv");
    reveal_strlit("csv");
    let d = spec_dec_i(t as int);
    let name = spec_log_file_name(t);
    if t >= 0 {
        lemma_dec_u_digits(t as int);
        assert(forall|j: int| 0 <= j < d.len() ==> is_digit(#[trigger] d[j]) && d[j] != '.');
    } else {
        lemma_dec_u_digits(-(t as int));
        assert(d == seq!['-'] + spec_dec_u(-(t as int)));
        assert(forall|j: int| 1 <= j < d.len() ==> is_digit(#[trigger] d[j]));
        assert(forall|j: int| 0 <= j < d.len() ==> d[j] != '.');
    }
    assert(".csv"@.len() == 4);
    assert(name[d.len() as int] == '.');
    assert(forall|j: int| 0 <= j < d.len() ==> name[j] == d[j] && name[j] != '.');
    lemma_split_at_first(name, '.', d.len() as int);
    assert(name.take(d.len() as int) =~= d);
    assert(name.skip(d.len() as int + 1) =~= "csv"@);
    assert(forall|j: int| 0 <= j < "csv"@.len() ==> "csv"@[j] != '.');
    lemma_split_no_sep("csv"@, '.');
    let segs = spec_split(name, '.');
    assert(segs =~= seq![d] + seq!["csv"@]);
    assert(segs.len() == 2 && segs[0] == d && segs[1] == "csv"@);
    lemma_parse_dec_i64(t);
}

/// What the fold computes: `None` only when nothing was valid; otherwise the
/// greatest stamp seen, drawn from the accumulator or from some name.
proof fn lemma_find_from_props(names: Seq<Seq<char>>, acc: Option<i64>)
    ensures
        match spec_find_from(names, acc) {
            None => acc is None && forall|i: int|
                0 <= i < names.len() ==> spec_log_stamp(names[i]) is None,
            Some(t) => {
                &&& (acc == Some(t) || exists|i: int|
                    0 <= i < names.len() && spec_log_stamp(names[i]) == Some(t))
                &&& (forall|i: int|
                    0 <= i < names.len() ==> match #[trigger] spec_log_stamp(names[i]) {
                        Some(u) => u <= t,
                        None => true,
                    })
                &&& (acc matches Some(a) ==> a <= t)
            },
        },
    decreases names.len(),
{
    if names.len() > 0 {
        let acc2 = spec_step(acc, names[0]);
        lemma_find_from_props(names.skip(1), acc2);
        assert(forall|i: int| 1 <= i < names.len() ==> names.skip(1)[i - 1] == names[i]);
        match spec_find_from(names, acc) {
            None => {},
            Some(t) => {
                if acc2 == Some(t) && acc != Some(t) && spec_log_stamp(names[0]) != Some(t) {
                    assert(false);
                }
                if !(acc == Some(t)) && !(spec_log_stamp(names[0]) == Some(t)) {
                    if !(acc2 == Some(t)) {
                        let w = choose|i: int|
                            0 <= i < names.skip(1).len() && spec_log_stamp(names.skip(1)[i])
                                == Some(t);
                        assert(names.skip(1)[w] == names[w + 1]);
                        assert(spec_log_stamp(names[w + 1]) == Some(t));
                    }
                }
            },
        }
    }
}

/// The active log is the one with the numerically greatest stamp among the
/// validly named files; invalidly named files are ignored, and only when no
/// name is valid is there no active log.
pub proof fn lemma_find_active_max(names: Seq<Seq<char>>)
    ensures
        match spec_find_active(names) {
            None => forall|i: int| 0 <= i < names.len() ==> spec_log_stamp(names[i]) is None,
            Some(t) => {
                &&& exists|i: int| 0 <= i < names.len() && spec_log_stamp(names[i]) == Some(t)
                &&& forall|i: int|
                    0 <= i < names.len() ==> match #[trigger] spec_log_stamp(names[i]) {
                        Some(u) => u <= t,
                        None => true,
                    }
            },
        },
{
    lemma_find_from_props(names, None);
}

/// Folding one more name steps the fold once.
proof fn lemma_find_from_push(names: Seq<Seq<char>>, acc: Option<i64>, x: Seq<char>)
    ensures
        spec_find_from(names.push(x), acc) == spec_step(spec_find_from(names, acc), x),
    decreases names.len(),
{
    let p = names.push(x);
    if names.len() == 0 {
        assert(p[0] == x);
        assert(p.skip(1) =~= Seq::<Seq<char>>::empty());
        assert(spec_find_from(p, acc) == spec_find_from(p.skip(1), spec_step(acc, x)));
    } else {
        assert(p[0] == names[0]);
        assert(p.skip(1) =~= names.skip(1).push(x));
        lemma_find_from_push(names.skip(1), spec_step(acc, names[0]), x);
    }
}

/// A log started now is the active log right afterwards: if its stamp is at
/// least every stamp already present, adding its file name makes the find
/// return exactly that stamp.
pub proof fn lemma_start_then_find(names: Seq<Seq<char>>, t: i64)
    requires
        forall|i: int|
            0 <= i < names.len() ==> match #[trigger] spec_log_stamp(names[i]) {
                Some(u) => u <= t,
                None => true,
            },
    ensures
        spec_find_active(names.push(spec_log_file_name(t))) == Some(t),
{
    lemma_log_name_stamp(t);
    lemma_find_from_push(names, None, spec_log_file_name(t));
    lemma_find_from_props(names, None);
}

} // verus!
