//! The timeline: replaying a log as relative, shift-adjusted durations.
//!
//! Each parsed entry is shown as `H:MM:SS message`, the elapsed time being
//! its timestamp minus the reference timestamp (the first parsed entry's)
//! plus the shift. Malformed lines are silently skipped by design.

use vstd::prelude::*;

use crate::num::{
    format_i64,
    format_pad2,
    lemma_dec_i_chars,
    lemma_parse_dec_i64,
    spec_dec_i,
    spec_pad2,
    spec_parse_i64,
};
use crate::store::{spec_append_content, spec_initial_content};
use crate::text::{
    find_first,
    has_char,
    lemma_first_idx,
    lemma_split_no_sep,
    lemma_split_prefix,
    spec_first_idx,
    spec_split,
    split_str,
};

verus! {

/// Integer division truncating toward zero, for a positive divisor, as
/// Rust's `/` behaves on signed integers.
pub open spec fn tdiv(a: int, b: int) -> int {
    if a >= 0 {
        a / b
    } else {
        -((-a) / b)
    }
}

/// The remainder matching `tdiv`, as Rust's `%` behaves: it takes the
/// dividend's sign.
pub open spec fn trem(a: int, b: int) -> int {
    if a >= 0 {
        a % b
    } else {
        -((-a) % b)
    }
}

/// The duration column `H:MM:SS` of one replayed line: whole hours unpadded,
/// minutes and seconds zero-padded to two digits, all three decomposed from
/// the elapsed seconds with truncation toward zero, so the components of a
/// negative total each carry their own sign.
pub open spec fn spec_format_duration(e: int) -> Seq<char> {
    spec_dec_i(tdiv(e, 3600)) + seq![':'] + spec_pad2(trem(tdiv(e, 60), 60)) + seq![':']
        + spec_pad2(trem(e, 60))
}

/// One replayed line: the duration column, a space, the message.
pub open spec fn spec_replay_line(e: int, msg: Seq<char>) -> Seq<char> {
    spec_format_duration(e) + seq![' '] + msg
}

/// Renders the duration column for `e` elapsed seconds.
pub fn format_duration(e: i128) -> (r: String)
    requires
        -0x40000000000000000 < e < 0x40000000000000000,
    ensures
        r@ == spec_format_duration(e as int),
{
    let neg = e < 0;
    let mag: u128 = if neg {
        (-e) as u128
    } else {
        e as u128
    };
    let h: u128 = mag / 3600;
    let mm: u128 = (mag / 60) % 60;
    let ss: u128 = mag % 60;
    let h_t: i64 = if neg {
        -(h as i64)
    } else {
        h as i64
    };
    let m_t: i64 = if neg {
        -(mm as i64)
    } else {
        mm as i64
    };
    let s_t: i64 = if neg {
        -(ss as i64)
    } else {
        ss as i64
    };
    proof {
        assert(h_t as int == tdiv(e as int, 3600));
        assert(tdiv(e as int, 60) == if neg {
            -((mag as int) / 60)
        } else {
            (mag as int) / 60
        });
        assert(m_t as int == trem(tdiv(e as int, 60), 60));
        assert(s_t as int == trem(e as int, 60));
    }
    let mut out = format_i64(h_t);
    out.append(":");
    let m_str = format_pad2(m_t);
    out.append(m_str.as_str());
    out.append(":");
    let s_str = format_pad2(s_t);
    out.append(s_str.as_str());
    proof {
        reveal_strlit(":");
        assert(out@ =~= spec_format_duration(e as int));
    }
    out
}

/// A line with its trailing carriage return stripped, as `str::lines` does.
pub open spec fn spec_strip_cr(l: Seq<char>) -> Seq<char> {
    if l.len() > 0 && l.last() == '\r' {
        l.drop_last()
    } else {
        l
    }
}

/// The lines of the file text, as `str::lines` yields them: split on
/// newlines, the final empty segment from a trailing newline dropped, and a
/// carriage return stripped from the end of every line that a newline
/// followed (one at the very end of the text, with no newline after it,
/// stays).
pub open spec fn spec_lines(s: Seq<char>) -> Seq<Seq<char>> {
    let raw = spec_split(s, '\n');
    let n: int = if raw.last().len() == 0 {
        raw.len() - 1
    } else {
        raw.len() as int
    };
    Seq::new(n as nat, |i: int| if i < raw.len() - 1 {
        spec_strip_cr(raw[i])
    } else {
        raw[i]
    })
}

/// The timestamp part of an entry line: everything before the first comma
/// (the whole line if it has none), parsed as a decimal integer.
pub open spec fn spec_line_stamp(line: Seq<char>) -> Option<i64> {
    spec_parse_i64(line.take(spec_first_idx(line, ',')))
}

/// The message part of an entry line: everything after the first comma.
/// A line without a comma carries no message, like the empty message of the
/// open placeholder entry.
pub open spec fn spec_line_msg(line: Seq<char>) -> Seq<char> {
    if has_char(line, ',') {
        line.skip(spec_first_idx(line, ',') + 1)
    } else {
        Seq::empty()
    }
}

/// The replayed output for `lines`, given the shift and the reference
/// timestamp established so far. The first line whose timestamp parses sets
/// the reference; every parsed line with a non-empty message is shown at
/// its timestamp minus the reference plus the shift; all other lines are
/// silently skipped.
pub open spec fn spec_replay(lines: Seq<Seq<char>>, shift: int, ref0: Option<int>) -> Seq<Seq<char>>
    decreases lines.len(),
{
    if lines.len() == 0 {
        Seq::empty()
    } else {
        let line = lines[0];
        match spec_line_stamp(line) {
            None => spec_replay(lines.skip(1), shift, ref0),
            Some(t) => {
                let r = match ref0 {
                    Some(r0) => r0,
                    None => t as int,
                };
                let rest = spec_replay(lines.skip(1), shift, Some(r));
                let msg = spec_line_msg(line);
                if msg.len() > 0 {
                    seq![spec_replay_line(t - r + shift, msg)] + rest
                } else {
                    rest
                }
            },
        }
    }
}

/// The whole replay of a log's text.
pub open spec fn spec_replay_text(content: Seq<char>, shift: int) -> Seq<Seq<char>> {
    spec_replay(spec_lines(content), shift, None)
}

/// The lines of the file text.
pub fn lines_of(s: &str) -> (r: Vec<String>)
    ensures
        r.deep_view() == spec_lines(s@),
{
    let raw = split_str(s, '\n');
    let ghost rawv = raw.deep_view();
    let ghost target = spec_lines(s@);
    let n: usize = if raw.len() > 0 && raw[raw.len() - 1].as_str().unicode_len() == 0 {
        raw.len() - 1
    } else {
        raw.len()
    };
    proof {
        crate::text::lemma_split_len(s@, '\n');
        assert(target.len() == n);
        assert(forall|k: int|
            0 <= k < n ==> target[k] == (if k < rawv.len() - 1 {
                spec_strip_cr(rawv[k])
            } else {
                rawv[k]
            }));
    }
    let mut out: Vec<String> = Vec::new();
    let mut i: usize = 0;
    while i < n
        invariant
            i <= n <= raw@.len(),
            rawv == raw.deep_view(),
            target.len() == n,
            forall|k: int|
                0 <= k < n ==> target[k] == (if k < rawv.len() - 1 {
                    spec_strip_cr(rawv[k])
                } else {
                    rawv[k]
                }),
            out.deep_view() == target.take(i as int),
        decreases n - i,
    {
        let line = raw[i].as_str();
        let ll = line.unicode_len();
        let ghost out0 = out.deep_view();
        let followed_by_newline = i + 1 < raw.len();
        if followed_by_newline && ll > 0 && line.get_char(ll - 1) == '\r' {
            let stripped = line.substring_char(0, ll - 1);
            out.push(String::from_str(stripped));
            proof {
                assert(rawv[i as int].drop_last() =~= rawv[i as int].subrange(0, ll - 1));
                assert(out.deep_view() =~~= out0 + seq![spec_strip_cr(rawv[i as int])]);
            }
        } else {
            out.push(String::from_str(line));
            proof {
                assert(out.deep_view() =~~= out0 + seq![rawv[i as int]]);
                if followed_by_newline {
                    assert(spec_strip_cr(rawv[i as int]) == rawv[i as int]);
                }
            }
        }
        proof {
            assert(out.deep_view() =~~= target.take(i + 1));
        }
        i += 1;
    }
    proof {
        assert(target.take(n as int) =~= target);
    }
    out
}

/// Replays the whole log text: every entry line whose timestamp parses and
/// whose message is non-empty becomes one `H:MM:SS message` line, its
/// elapsed time relative to the first parsed timestamp plus the shift.
/// Output is a pure function of the text and the shift, so an unchanged log
/// replays identically every time.
pub fn replay_lines(content: &str, shift: i64) -> (r: Vec<String>)
    ensures
        r.deep_view() == spec_replay_text(content@, shift as int),
{
    let lines = lines_of(content);
    let ghost ls = lines.deep_view();
    let mut out: Vec<String> = Vec::new();
    let mut reft: Option<i64> = None;
    let mut i: usize = 0;
    proof {
        assert(ls.skip(0) =~= ls);
    }
    while i < lines.len()
        invariant
            i <= lines@.len(),
            ls == lines.deep_view(),
            spec_replay_text(content@, shift as int) == out.deep_view() + spec_replay(
                ls.skip(i as int),
                shift as int,
                match reft {
                    Some(r0) => Some(r0 as int),
                    None => None,
                },
            ),
        decreases lines@.len() - i,
    {
        let line = lines[i].as_str();
        let ghost lv = ls[i as int];
        proof {
            assert(line@ == lv);
            assert(ls.skip(i as int)[0] == lv);
            assert(ls.skip(i as int).skip(1) =~= ls.skip(i as int + 1));
            lemma_first_idx(lv, ',');
        }
        let ll = line.unicode_len();
        let comma = find_first(line, ',');
        let stamp: Option<i64> = match comma {
            Some(c) => {
                let tpart = line.substring_char(0, c);
                crate::num::parse_i64(tpart)
            },
            None => {
                proof {
                    assert(lv.take(spec_first_idx(lv, ',')) =~= lv);
                }
                crate::num::parse_i64(line)
            },
        };
        proof {
            assert(stamp == spec_line_stamp(lv));
        }
        match stamp {
            None => {},
            Some(t) => {
                let r: i64 = match reft {
                    Some(r0) => r0,
                    None => {
                        reft = Some(t);
                        t
                    },
                };
                if let Some(c) = comma {
                    if c + 1 < ll {
                        let msg = line.substring_char(c + 1, ll);
                        proof {
                            assert(msg@ =~= spec_line_msg(lv));
                        }
                        let e: i128 = t as i128 - r as i128 + shift as i128;
                        let mut shown = format_duration(e);
                        shown.append(" ");
                        shown.append(msg);
                        proof {
                            reveal_strlit(" ");
                            assert(shown@ =~= spec_replay_line(e as int, msg@));
                        }
                        let ghost out0 = out.deep_view();
                        out.push(shown);
                        proof {
                            assert(out.deep_view() =~~= out0 + seq![
                                spec_replay_line(e as int, spec_line_msg(lv)),
                            ]);
                        }
                    } else {
                        proof {
                            assert(spec_line_msg(lv).len() == 0);
                        }
                    }
                } else {
                    proof {
                        assert(spec_line_msg(lv).len() == 0);
                    }
                }
            },
        }
        i += 1;
    }
    proof {
        assert(ls.skip(ls.len() as int) =~= Seq::<Seq<char>>::empty());
    }
    out
}

/// How an entry line of the on-disk shape reads: the timestamp before the
/// first comma, the message after it.
pub proof fn lemma_record_line(t: i64, msg: Seq<char>)
    ensures
        spec_line_stamp(spec_dec_i(t as int) + seq![','] + msg) == Some(t),
        spec_line_msg(spec_dec_i(t as int) + seq![','] + msg) == msg,
{
    let d = spec_dec_i(t as int);
    let line = d + seq![','] + msg;
    lemma_dec_i_chars(t as int);
    assert(forall|j: int| 0 <= j < d.len() ==> line[j] == d[j]);
    assert(forall|j: int| 0 <= j < d.len() ==> line[j] != ',');
    assert(line[d.len() as int] == ',');
    lemma_first_idx(line, ',');
    assert(has_char(line, ','));
    let fi = spec_first_idx(line, ',');
    assert(fi <= d.len());
    assert(fi >= d.len());
    assert(line.take(fi) =~= d);
    lemma_parse_dec_i64(t);
    assert(line.skip(fi + 1) =~= msg);
}

/// Replaying a log that holds only the open placeholder entry (no completed
/// message yet) produces no output, whatever the shift.
pub proof fn lemma_replay_placeholder_only(t: i64, shift: int)
    ensures
        spec_replay_text(spec_initial_content(t), shift) == Seq::<Seq<char>>::empty(),
{
    let d = spec_dec_i(t as int);
    let content = spec_initial_content(t);
    lemma_dec_i_chars(t as int);
    assert(forall|j: int| 0 <= j < d.len() ==> content[j] == d[j]);
    assert(content[d.len() as int] == ',');
    assert(forall|j: int| 0 <= j < content.len() ==> content[j] != '\n');
    lemma_split_no_sep(content, '\n');
    let raw = spec_split(content, '\n');
    assert(raw.last() == content && content.len() > 0);
    assert(content.last() == ',');
    assert(spec_strip_cr(content) == content);
    assert(spec_lines(content) =~~= seq![content]);
    lemma_record_line(t, Seq::empty());
    assert(d + seq![','] + Seq::<char>::empty() =~= content);
    let lines = seq![content];
    assert(lines.skip(1) =~= Seq::<Seq<char>>::empty());
    assert(spec_replay(Seq::<Seq<char>>::empty(), shift, Some(t as int)) == Seq::<Seq<
        char,
    >>::empty());
    assert(spec_replay(lines, shift, None) =~= Seq::<Seq<char>>::empty());
}

/// One append on a freshly started log replays, with shift zero, as exactly
/// one line: `0:00:00` and the message, whatever the two timestamps.
/// The message must be newline-free (embedded newlines corrupt the
/// line-oriented format, an accepted limitation) and non-empty (an empty
/// message is skipped, like the placeholder's).
pub proof fn lemma_append_then_replay(t0: i64, t1: i64, msg: Seq<char>)
    requires
        msg.len() > 0,
        forall|j: int| 0 <= j < msg.len() ==> msg[j] != '\n' && msg[j] != '\r',
    ensures
        spec_replay_text(spec_initial_content(t0) + spec_append_content(msg, t1), 0) == seq![
            spec_replay_line(0, msg),
        ],
{
    let d0 = spec_dec_i(t0 as int);
    let d1 = spec_dec_i(t1 as int);
    let l1 = d0 + seq![','] + msg;
    let l2 = d1 + seq![','];
    let content = spec_initial_content(t0) + spec_append_content(msg, t1);
    assert(content =~= l1 + seq!['\n'] + l2);
    lemma_dec_i_chars(t0 as int);
    lemma_dec_i_chars(t1 as int);
    assert(forall|j: int| 0 <= j < d0.len() ==> l1[j] == d0[j]);
    assert(l1[d0.len() as int] == ',');
    assert(forall|j: int| d0.len() + 1 <= j < l1.len() ==> l1[j] == msg[j - d0.len() - 1]);
    assert(forall|j: int| 0 <= j < l1.len() ==> l1[j] != '\n');
    lemma_split_prefix(l1, '\n', l2);
    assert(forall|j: int| 0 <= j < d1.len() ==> l2[j] == d1[j]);
    assert(l2[d1.len() as int] == ',');
    assert(forall|j: int| 0 <= j < l2.len() ==> l2[j] != '\n');
    lemma_split_no_sep(l2, '\n');
    let raw = spec_split(content, '\n');
    assert(raw == seq![l1] + seq![l2]);
    assert(raw.last() == l2 && l2.len() > 0);
    assert(l1.last() == msg.last() && msg.last() != '\r');
    assert(spec_strip_cr(l1) == l1);
    assert(l2.last() == ',');
    assert(spec_strip_cr(l2) == l2);
    assert(spec_lines(content) =~~= seq![l1, l2]);
    lemma_record_line(t0, msg);
    lemma_record_line(t1, Seq::empty());
    assert(d1 + seq![','] + Seq::<char>::empty() =~= l2);
    let lines = seq![l1, l2];
    assert(lines.skip(1) =~= seq![l2]);
    assert(seq![l2].skip(1) =~= Seq::<Seq<char>>::empty());
    assert(spec_replay(Seq::<Seq<char>>::empty(), 0, Some(t0 as int)) == Seq::<Seq<
        char,
    >>::empty());
    assert(spec_replay(seq![l2], 0, Some(t0 as int)) =~= Seq::<Seq<char>>::empty());
    assert(spec_replay(lines, 0, None) =~= seq![spec_replay_line(0, msg)]);
}

/// Two appends replay as two lines, both moved by the shift: the first at
/// elapsed `shift`, the second at its distance from the first plus the
/// shift. (With a zero shift, appends 61 seconds apart read `0:00:00` and
/// `0:01:01`; with a `01:00:00` shift, `1:00:00` and `1:01:01`.)
pub proof fn lemma_two_appends_replay(
    t0: i64,
    t1: i64,
    t2: i64,
    m1: Seq<char>,
    m2: Seq<char>,
    shift: int,
)
    requires
        m1.len() > 0,
        m2.len() > 0,
        forall|j: int| 0 <= j < m1.len() ==> m1[j] != '\n' && m1[j] != '\r',
        forall|j: int| 0 <= j < m2.len() ==> m2[j] != '\n' && m2[j] != '\r',
    ensures
        spec_replay_text(
            spec_initial_content(t0) + spec_append_content(m1, t1) + spec_append_content(m2, t2),
            shift,
        ) == seq![spec_replay_line(shift, m1), spec_replay_line(t1 - t0 + shift, m2)],
{
    let d0 = spec_dec_i(t0 as int);
    let d1 = spec_dec_i(t1 as int);
    let d2 = spec_dec_i(t2 as int);
    let l1 = d0 + seq![','] + m1;
    let l2 = d1 + seq![','] + m2;
    let l3 = d2 + seq![','];
    let content = spec_initial_content(t0) + spec_append_content(m1, t1) + spec_append_content(
        m2,
        t2,
    );
    assert(content =~= l1 + seq!['\n'] + (l2 + seq!['\n'] + l3));
    lemma_dec_i_chars(t0 as int);
    lemma_dec_i_chars(t1 as int);
    lemma_dec_i_chars(t2 as int);
    assert(forall|j: int| 0 <= j < d0.len() ==> l1[j] == d0[j]);
    assert(l1[d0.len() as int] == ',');
    assert(forall|j: int| d0.len() + 1 <= j < l1.len() ==> l1[j] == m1[j - d0.len() - 1]);
    assert(forall|j: int| 0 <= j < l1.len() ==> l1[j] != '\n');
    assert(forall|j: int| 0 <= j < d1.len() ==> l2[j] == d1[j]);
    assert(l2[d1.len() as int] == ',');
    assert(forall|j: int| d1.len() + 1 <= j < l2.len() ==> l2[j] == m2[j - d1.len() - 1]);
    assert(forall|j: int| 0 <= j < l2.len() ==> l2[j] != '\n');
    assert(forall|j: int| 0 <= j < d2.len() ==> l3[j] == d2[j]);
    assert(l3[d2.len() as int] == ',');
    assert(forall|j: int| 0 <= j < l3.len() ==> l3[j] != '\n');
    lemma_split_prefix(l1, '\n', l2 + seq!['\n'] + l3);
    lemma_split_prefix(l2, '\n', l3);
    lemma_split_no_sep(l3, '\n');
    let raw = spec_split(content, '\n');
    assert(raw == seq![l1] + (seq![l2] + seq![l3]));
    assert(raw.last() == l3 && l3.len() > 0);
    assert(l1.last() == m1.last() && m1.last() != '\r');
    assert(l2.last() == m2.last() && m2.last() != '\r');
    assert(l3.last() == ',');
    assert(spec_strip_cr(l1) == l1 && spec_strip_cr(l2) == l2 && spec_strip_cr(l3) == l3);
    assert(spec_lines(content) =~~= seq![l1, l2, l3]);
    lemma_record_line(t0, m1);
    lemma_record_line(t1, m2);
    lemma_record_line(t2, Seq::empty());
    assert(d2 + seq![','] + Seq::<char>::empty() =~= l3);
    let lines = seq![l1, l2, l3];
    assert(lines.skip(1) =~= seq![l2, l3]);
    assert(seq![l2, l3].skip(1) =~= seq![l3]);
    assert(seq![l3].skip(1) =~= Seq::<Seq<char>>::empty());
    assert(spec_replay(Seq::<Seq<char>>::empty(), shift, Some(t0 as int)) == Seq::<Seq<
        char,
    >>::empty());
    assert(spec_replay(seq![l3], shift, Some(t0 as int)) =~= Seq::<Seq<char>>::empty());
    assert(spec_replay(seq![l2, l3], shift, Some(t0 as int)) =~= seq![
        spec_replay_line(t1 - t0 + shift, m2),
    ]);
    assert(spec_replay(lines, shift, None) =~= seq![
        spec_replay_line(t0 - t0 + shift, m1),
        spec_replay_line(t1 - t0 + shift, m2),
    ]);
}

/// Replay is a pure function of the log text and the shift: two replays of
/// an unchanged log are identical.
pub proof fn lemma_replay_repeatable(
    first: Seq<Seq<char>>,
    second: Seq<Seq<char>>,
    content: Seq<char>,
    shift: int,
)
    requires
        first == spec_replay_text(content, shift),
        second == spec_replay_text(content, shift),
    ensures
        first == second,
{
}

} // verus!
