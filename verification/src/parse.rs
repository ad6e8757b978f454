//! The timing and header grammar: a timestamp is two or three colon-separated
//! two-digit groups followed by a dot and exactly three digits; a cue-timing
//! line is two timestamps joined by ` --> `; a header line is an alphanumeric
//! key, the literal `": "`, and a value that starts alphanumerically.
//!
//! Failing to match is how the classifier tells header and payload lines from
//! cue-timing lines, so the failure paths are part of the contract.

use vstd::prelude::*;

use crate::text::views;

verus! {

pub open spec fn is_digit_char(c: char) -> bool {
    '0' <= c && c <= '9'
}

pub open spec fn is_alnum_char(c: char) -> bool {
    is_digit_char(c) || ('a' <= c && c <= 'z') || ('A' <= c && c <= 'Z')
}

/// ASCII digit test used by the timestamp grammar.
pub fn is_digit(c: char) -> (b: bool)
    ensures
        b == is_digit_char(c),
{
    '0' <= c && c <= '9'
}

pub fn is_alnum(c: char) -> (b: bool)
    ensures
        b == is_alnum_char(c),
{
    is_digit(c) || ('a' <= c && c <= 'z') || ('A' <= c && c <= 'Z')
}

/// Two digits stand at position `i`.
pub open spec fn two_digits_at(s: Seq<char>, i: int) -> bool {
    0 <= i && i + 2 <= s.len() && is_digit_char(s[i]) && is_digit_char(s[i + 1])
}

/// After the two-digit group at `i`, a colon and another group follow.
pub open spec fn hms_more(s: Seq<char>, i: int) -> bool {
    i + 2 < s.len() && s[i + 2] == ':' && two_digits_at(s, i + 3)
}

/// End position (exclusive) of the longest run of colon-separated two-digit
/// groups starting at `i`.
pub open spec fn hms_end(s: Seq<char>, i: int) -> int
    decreases s.len() - i,
        when 0 <= i && i + 2 <= s.len()
{
    if hms_more(s, i) {
        hms_end(s, i + 3)
    } else {
        i + 2
    }
}

/// The group run starting at `i` ends two past a multiple of three and stays
/// inside the sequence.
pub proof fn lemma_hms_end_shape(s: Seq<char>, i: int)
    requires
        two_digits_at(s, i),
    ensures
        i + 2 <= hms_end(s, i) <= s.len(),
        (hms_end(s, i) - i) % 3 == 2,
    decreases s.len() - i,
{
    if hms_more(s, i) {
        lemma_hms_end_shape(s, i + 3);
    }
}

pub open spec fn hms_group_count(s: Seq<char>) -> int {
    (hms_end(s, 0) + 1) / 3
}

/// The two-digit groups of the leading group run.
pub open spec fn hms_groups(s: Seq<char>) -> Seq<Seq<char>> {
    Seq::new(hms_group_count(s) as nat, |k: int| s.subrange(3 * k, 3 * k + 2))
}

/// Length of a well-formed leading timestamp (9 for `mm:ss.mmm`, 12 for
/// `hh:mm:ss.mmm`), or -1 when the line does not begin with one.
pub open spec fn timing_len(s: Seq<char>) -> int {
    if !two_digits_at(s, 0) {
        -1
    } else {
        let e = hms_end(s, 0);
        if (e == 5 || e == 8) && e + 4 <= s.len() && s[e] == '.' && is_digit_char(s[e + 1])
            && is_digit_char(s[e + 2]) && is_digit_char(s[e + 3]) {
            e + 4
        } else {
            -1
        }
    }
}

/// The whole of `s` is one well-formed timestamp.
pub open spec fn is_timestamp(s: Seq<char>) -> bool {
    timing_len(s) == s.len()
}

/// The literal ` --> ` stands at position `i`.
pub open spec fn sep_ok(s: Seq<char>, i: int) -> bool {
    &&& 0 <= i && i + 5 <= s.len()
    &&& s[i] == ' '
    &&& s[i + 1] == '-'
    &&& s[i + 2] == '-'
    &&& s[i + 3] == '>'
    &&& s[i + 4] == ' '
}

/// Length of a well-formed leading cue-timing range `start --> end`, or -1.
/// Trailing content after the second timestamp is ignored.
pub open spec fn cue_timing_len(s: Seq<char>) -> int {
    let t1 = timing_len(s);
    if t1 < 0 {
        -1
    } else if !sep_ok(s, t1) {
        -1
    } else {
        let t2 = timing_len(s.subrange(t1 + 5, s.len() as int));
        if t2 < 0 {
            -1
        } else {
            t1 + 5 + t2
        }
    }
}

pub open spec fn is_cue_timing(s: Seq<char>) -> bool {
    cue_timing_len(s) >= 0
}

/// The substring spanning both timestamps and the separator.
pub open spec fn cue_token(s: Seq<char>) -> Seq<char> {
    s.subrange(0, cue_timing_len(s))
}

/// First position at or after `i` whose character is not alphanumeric.
pub open spec fn alnum_end_from(s: Seq<char>, i: int) -> int
    decreases s.len() - i,
        when 0 <= i <= s.len()
{
    if i < s.len() && is_alnum_char(s[i]) {
        alnum_end_from(s, i + 1)
    } else {
        i
    }
}

pub proof fn lemma_alnum_end_from(s: Seq<char>, i: int, k: int)
    requires
        0 <= i <= k <= s.len(),
        forall|j: int| i <= j < k ==> is_alnum_char(s[j]),
        k == s.len() || !is_alnum_char(s[k]),
    ensures
        alnum_end_from(s, i) == k,
    decreases k - i,
{
    if i < k {
        lemma_alnum_end_from(s, i + 1, k);
    }
}

/// Length of the header key, or -1 when the line is not a `Key: Value`
/// assignment (alphanumeric key, `": "`, value starting alphanumerically).
pub open spec fn header_key_len(s: Seq<char>) -> int {
    let k = alnum_end_from(s, 0);
    if k >= 1 && k + 2 < s.len() && s[k] == ':' && s[k + 1] == ' ' && is_alnum_char(s[k + 2]) {
        k
    } else {
        -1
    }
}

pub open spec fn is_header(s: Seq<char>) -> bool {
    header_key_len(s) >= 1
}

pub open spec fn header_key(s: Seq<char>) -> Seq<char> {
    s.subrange(0, header_key_len(s))
}

/// The ` --> ` separator between the two timestamps of a cue-timing line.
pub open spec fn arrow_sep() -> Seq<char> {
    " --> "@
}

/// Extending the input cannot change the group scan, as long as the scan
/// stopped at a visible non-colon character.
proof fn lemma_hms_end_concat(s: Seq<char>, x: Seq<char>, i: int)
    requires
        0 <= i,
        i + 2 <= s.len(),
        hms_end(s, i) < s.len(),
        s[hms_end(s, i)] != ':',
    ensures
        hms_end(s + x, i) == hms_end(s, i),
    decreases s.len() - i,
{
    if hms_more(s, i) {
        assert((s + x)[i + 2] == s[i + 2]);
        assert((s + x)[i + 3] == s[i + 3]);
        assert((s + x)[i + 4] == s[i + 4]);
        assert(hms_more(s + x, i));
        lemma_hms_end_concat(s, x, i + 3);
    } else {
        assert((s + x)[i + 2] == s[i + 2]);
        assert(!hms_more(s + x, i));
    }
}

/// A well-formed timestamp is still the matched prefix after any text is
/// appended to it.
proof fn lemma_timing_prefix(t: Seq<char>, x: Seq<char>)
    requires
        is_timestamp(t),
    ensures
        timing_len(t + x) == t.len() as int,
{
    let e = hms_end(t, 0);
    lemma_hms_end_shape(t, 0);
    assert(e + 4 == t.len());
    assert(t[e] == '.');
    lemma_hms_end_concat(t, x, 0);
    assert((t + x)[0] == t[0] && (t + x)[1] == t[1]);
    assert((t + x)[e] == t[e]);
    assert((t + x)[e + 1] == t[e + 1] && (t + x)[e + 2] == t[e + 2] && (t + x)[e + 3] == t[e + 3]);
}

/// For all well-formed timing strings `start --> end` (in either the short
/// `mm:ss.mmm` or the long `hh:mm:ss.mmm` form, with any trailing content),
/// the parser recovers exactly the substring spanning both timestamps and
/// the separator, whose length is `start.len() + 5 + end.len()`.
pub proof fn lemma_timing_parser_exact(t1: Seq<char>, t2: Seq<char>, rest: Seq<char>)
    requires
        is_timestamp(t1),
        is_timestamp(t2),
    ensures
        is_cue_timing(t1 + arrow_sep() + t2 + rest),
        cue_timing_len(t1 + arrow_sep() + t2 + rest) == t1.len() + 5 + t2.len(),
        cue_token(t1 + arrow_sep() + t2 + rest) == t1 + arrow_sep() + t2,
{
    reveal_strlit(" --> ");
    let sep = arrow_sep();
    assert(sep.len() == 5);
    let s = t1 + sep + t2 + rest;
    let n1 = t1.len() as int;
    assert(s =~= t1 + (sep + t2 + rest));
    lemma_timing_prefix(t1, sep + t2 + rest);
    assert(timing_len(s) == n1);
    assert(s[n1] == sep[0]);
    assert(s[n1 + 1] == sep[1]);
    assert(s[n1 + 2] == sep[2]);
    assert(s[n1 + 3] == sep[3]);
    assert(s[n1 + 4] == sep[4]);
    assert(sep_ok(s, n1));
    let sub = s.subrange(n1 + 5, s.len() as int);
    assert(sub =~= t2 + rest);
    lemma_timing_prefix(t2, rest);
    assert(timing_len(sub) == t2.len());
    assert(cue_timing_len(s) == n1 + 5 + t2.len());
    assert(cue_token(s) =~= t1 + arrow_sep() + t2);
}

fn hms_more_exec(s: &str, i: usize) -> (b: bool)
    requires
        i + 2 <= s@.len(),
    ensures
        b == hms_more(s@, i as int),
{
    let n = s.unicode_len();
    i + 2 < n && s.get_char(i + 2) == ':' && n - i >= 5 && is_digit(s.get_char(i + 3)) && is_digit(
        s.get_char(i + 4),
    )
}

/// Scan the colon-separated two-digit groups that start the line.
fn hms_scan(s: &str) -> (e: usize)
    requires
        two_digits_at(s@, 0),
    ensures
        e == hms_end(s@, 0),
        2 <= e <= s@.len(),
        (e - 0) % 3 == 2,
{
    proof {
        lemma_hms_end_shape(s@, 0);
    }
    let n = s.unicode_len();
    let mut i: usize = 0;
    let mut more = hms_more_exec(s, 0);
    while more
        invariant
            n == s@.len(),
            two_digits_at(s@, i as int),
            hms_end(s@, i as int) == hms_end(s@, 0),
            more == hms_more(s@, i as int),
            i % 3 == 0,
        decreases s@.len() - i,
    {
        i += 3;
        more = hms_more_exec(s, i);
    }
    proof {
        lemma_hms_end_shape(s@, i as int);
    }
    i + 2
}

/// Parses the leading run of colon-separated two-digit groups, returning the
/// unconsumed remainder and the list of groups.
pub fn parse_timing_hms(line: &str) -> (r: Option<(String, Vec<String>)>)
    ensures
        r.is_some() <==> two_digits_at(line@, 0),
        match r {
            Some(p) => {
                &&& p.0@ == line@.subrange(hms_end(line@, 0), line@.len() as int)
                &&& views(p.1@) == hms_groups(line@)
            },
            None => true,
        },
{
    let n = line.unicode_len();
    if n < 2 || !is_digit(line.get_char(0)) || !is_digit(line.get_char(1)) {
        return None;
    }
    let e = hms_scan(line);
    let count = (e + 1) / 3;
    let mut groups: Vec<String> = Vec::new();
    let mut g: usize = 0;
    while g < count
        invariant
            n == line@.len(),
            e == hms_end(line@, 0),
            2 <= e <= n,
            e % 3 == 2,
            count == (e + 1) / 3,
            g <= count,
            groups@.len() == g,
            forall|k: int| 0 <= k < g ==> (#[trigger] groups@[k])@ == line@.subrange(
                3 * k,
                3 * k + 2,
            ),
        decreases count - g,
    {
        assert(3 * count == e + 1);
        assert(3 * g + 2 <= e);
        let piece = line.substring_char(3 * g, 3 * g + 2);
        groups.push(String::from_str(piece));
        g += 1;
    }
    let rem = String::from_str(line.substring_char(e, n));
    proof {
        assert(3 * count == e + 1);
        assert(views(groups@) =~~= hms_groups(line@));
    }
    Some((rem, groups))
}

/// Parses exactly three leading digits, returning the remainder and the
/// matched digits.
pub fn parse_timing_milliseconds(line: &str) -> (r: Option<(String, String)>)
    ensures
        r.is_some() <==> (line@.len() >= 3 && is_digit_char(line@[0]) && is_digit_char(line@[1])
            && is_digit_char(line@[2])),
        match r {
            Some(p) => {
                &&& p.0@ == line@.subrange(3, line@.len() as int)
                &&& p.1@ == line@.subrange(0, 3)
            },
            None => true,
        },
{
    let n = line.unicode_len();
    if n < 3 || !is_digit(line.get_char(0)) || !is_digit(line.get_char(1)) || !is_digit(
        line.get_char(2),
    ) {
        return None;
    }
    let digits = String::from_str(line.substring_char(0, 3));
    let rem = String::from_str(line.substring_char(3, n));
    Some((rem, digits))
}

/// Parses a leading timestamp, returning the remainder and the matched 9- or
/// 12-character substring.
pub fn parse_timing(line: &str) -> (r: Option<(String, String)>)
    ensures
        r.is_some() <==> timing_len(line@) >= 0,
        match r {
            Some(p) => {
                &&& p.0@ == line@.subrange(timing_len(line@), line@.len() as int)
                &&& p.1@ == line@.subrange(0, timing_len(line@))
            },
            None => true,
        },
{
    let n = line.unicode_len();
    if n < 2 || !is_digit(line.get_char(0)) || !is_digit(line.get_char(1)) {
        return None;
    }
    let e = hms_scan(line);
    if !(e == 5 || e == 8) {
        return None;
    }
    if n - e < 4 {
        return None;
    }
    if line.get_char(e) != '.' {
        return None;
    }
    if !is_digit(line.get_char(e + 1)) || !is_digit(line.get_char(e + 2)) || !is_digit(
        line.get_char(e + 3),
    ) {
        return None;
    }
    let tok = String::from_str(line.substring_char(0, e + 4));
    let rem = String::from_str(line.substring_char(e + 4, n));
    Some((rem, tok))
}

/// Parses a leading cue-timing range, returning the substring that spans both
/// timestamps and the ` --> ` separator. Trailing content is ignored.
pub fn parse_cue_timings(line: &str) -> (r: Option<String>)
    ensures
        r.is_some() <==> is_cue_timing(line@),
        match r {
            Some(t) => t@ == cue_token(line@),
            None => true,
        },
{
    let n = line.unicode_len();
    let first = parse_timing(line);
    let (rem1, tok1) = match first {
        Some(p) => p,
        None => {
            return None;
        },
    };
    let t1 = tok1.as_str().unicode_len();
    let m = rem1.as_str().unicode_len();
    if m < 5 {
        return None;
    }
    let r1 = rem1.as_str();
    if r1.get_char(0) != ' ' || r1.get_char(1) != '-' || r1.get_char(2) != '-' || r1.get_char(3)
        != '>' || r1.get_char(4) != ' ' {
        return None;
    }
    let rest = r1.substring_char(5, m);
    proof {
        assert(rest@ =~= line@.subrange(t1 as int + 5, line@.len() as int));
    }
    let second = parse_timing(rest);
    match second {
        None => None,
        Some(p2) => {
            let t2 = p2.1.as_str().unicode_len();
            let tok = String::from_str(line.substring_char(0, t1 + 5 + t2));
            Some(tok)
        },
    }
}

/// Parses a `Key: Value` header assignment, returning the key.
pub fn parse_header_value(line: &str) -> (r: Option<String>)
    ensures
        r.is_some() <==> is_header(line@),
        match r {
            Some(k) => k@ == header_key(line@),
            None => true,
        },
{
    let n = line.unicode_len();
    let mut k: usize = 0;
    while k < n && is_alnum(line.get_char(k))
        invariant
            n == line@.len(),
            k <= n,
            forall|j: int| 0 <= j < k ==> is_alnum_char(line@[j]),
        decreases n - k,
    {
        k += 1;
    }
    proof {
        lemma_alnum_end_from(line@, 0, k as int);
    }
    if k == 0 {
        return None;
    }
    if n - k < 3 {
        return None;
    }
    if line.get_char(k) != ':' {
        return None;
    }
    if line.get_char(k + 1) != ' ' {
        return None;
    }
    if !is_alnum(line.get_char(k + 2)) {
        return None;
    }
    Some(String::from_str(line.substring_char(0, k)))
}

} // verus!
