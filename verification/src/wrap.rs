//! The payload wrapper: one trimmed line of caption text is split into a
//! small number of balanced-width sub-lines. A greedy word wrap at the target
//! width is attempted first; while the result needs more than the allowed
//! number of lines, the width limit is relaxed one character at a time, up to
//! a fixed overflow budget. Breaks happen at spaces only: a word longer than
//! the width limit stays whole on one overlong line.

use vstd::prelude::*;

use crate::text::is_space;
use crate::text::is_space_char;
use crate::text::is_trimmed;
use crate::text::lemma_ltrim_props;
use crate::text::lemma_ltrim_subrange;
use crate::text::lemma_rtrim_subrange;
use crate::text::lemma_trim_trimmed;
use crate::text::lemma_views_after_push;
use crate::text::ltrim;
use crate::text::rtrim;
use crate::text::trim;
use crate::text::trim_str;
use crate::text::views;

verus! {

/// Width that wrapped payload lines aim for.
pub const TARGET_CUE_PAYLOAD_TEXT_LENGTH: usize = 42;

/// How far the width limit may be relaxed beyond the target.
pub const MAX_CUE_PAYLOAD_TEXT_OVERFLOW: usize = 3;

/// How many lines a wrapped payload should need at most.
pub const TARGET_CUE_PAYLOAD_TEXT_MAX_LINES: usize = 3;

/// Rightmost position `p <= w` with a space, or -1.
pub open spec fn last_space_upto(s: Seq<char>, w: int) -> int
    decreases w + 1,
{
    if w < 0 {
        -1
    } else if w < s.len() && s[w] == ' ' {
        w
    } else {
        last_space_upto(s, w - 1)
    }
}

/// Leftmost position `q >= i` with a space, or -1.
pub open spec fn first_space_from(s: Seq<char>, i: int) -> int
    decreases s.len() - i,
{
    if !(0 <= i < s.len()) {
        -1
    } else if s[i] == ' ' {
        i
    } else {
        first_space_from(s, i + 1)
    }
}

pub proof fn lemma_last_space_bounds(s: Seq<char>, w: int)
    ensures
        last_space_upto(s, w) == -1 || (0 <= last_space_upto(s, w) <= w && last_space_upto(s, w)
            < s.len() && s[last_space_upto(s, w)] == ' '),
    decreases w + 1,
{
    if w >= 0 && !(w < s.len() && s[w] == ' ') {
        lemma_last_space_bounds(s, w - 1);
    }
}

pub proof fn lemma_last_space_found(s: Seq<char>, w: int, p: int)
    requires
        0 <= p <= w,
        p < s.len(),
        s[p] == ' ',
        forall|k: int| p < k <= w && k < s.len() ==> s[k] != ' ',
    ensures
        last_space_upto(s, w) == p,
    decreases w - p,
{
    if w > p {
        lemma_last_space_found(s, w - 1, p);
    }
}

pub proof fn lemma_last_space_none(s: Seq<char>, w: int)
    requires
        forall|k: int| 0 <= k <= w && k < s.len() ==> s[k] != ' ',
    ensures
        last_space_upto(s, w) == -1,
    decreases w + 1,
{
    if w >= 0 {
        lemma_last_space_none(s, w - 1);
    }
}

pub proof fn lemma_first_space_bounds(s: Seq<char>, i: int)
    ensures
        first_space_from(s, i) == -1 || (i <= first_space_from(s, i) < s.len() && s[first_space_from(
            s,
            i,
        )] == ' '),
    decreases s.len() - i,
{
    if 0 <= i < s.len() && s[i] != ' ' {
        lemma_first_space_bounds(s, i + 1);
    }
}

pub proof fn lemma_first_space_found(s: Seq<char>, i: int, q: int)
    requires
        0 <= i <= q < s.len(),
        s[q] == ' ',
        forall|k: int| i <= k < q ==> s[k] != ' ',
    ensures
        first_space_from(s, i) == q,
    decreases q - i,
{
    if i < q {
        lemma_first_space_found(s, i + 1, q);
    }
}

pub proof fn lemma_first_space_none(s: Seq<char>, i: int)
    requires
        0 <= i,
        forall|k: int| i <= k < s.len() ==> s[k] != ' ',
    ensures
        first_space_from(s, i) == -1,
    decreases s.len() - i,
{
    if i < s.len() {
        lemma_first_space_none(s, i + 1);
    }
}

/// Greedy word wrap of trimmed text at width `w`: while the text is longer
/// than `w`, break it at the rightmost space at or before `w` (or, when a
/// single word overruns the width, at the first space after it), trimming
/// whitespace around the break.
pub open spec fn wrap_spec(s: Seq<char>, w: int) -> Seq<Seq<char>>
    decreases s.len(),
        via wrap_spec_dec
{
    if s.len() == 0 {
        Seq::empty()
    } else if s.len() <= w {
        seq![s]
    } else {
        let p = last_space_upto(s, w);
        if 0 <= p {
            seq![rtrim(s.subrange(0, p))] + wrap_spec(ltrim(s.subrange(p + 1, s.len() as int)), w)
        } else {
            let q = first_space_from(s, w + 1);
            if 0 <= q {
                seq![s.subrange(0, q)] + wrap_spec(ltrim(s.subrange(q + 1, s.len() as int)), w)
            } else {
                seq![s]
            }
        }
    }
}

#[via_fn]
proof fn wrap_spec_dec(s: Seq<char>, w: int) {
    if s.len() > 0 && s.len() > w {
        let p = last_space_upto(s, w);
        lemma_last_space_bounds(s, w);
        if 0 <= p {
            lemma_ltrim_props(s.subrange(p + 1, s.len() as int));
        } else {
            let q = first_space_from(s, w + 1);
            lemma_first_space_bounds(s, w + 1);
            if 0 <= q {
                lemma_ltrim_props(s.subrange(q + 1, s.len() as int));
            }
        }
    }
}

/// The relax-and-retry search, starting at `overflow` characters over the
/// target width: the first attempt that fits the line budget wins, and the
/// last allowed attempt is accepted as it is.
pub open spec fn wrap_relaxed_from(s: Seq<char>, overflow: int) -> Seq<Seq<char>>
    decreases MAX_CUE_PAYLOAD_TEXT_OVERFLOW as int - overflow,
        when 0 <= overflow <= MAX_CUE_PAYLOAD_TEXT_OVERFLOW as int
{
    let attempt = wrap_spec(s, TARGET_CUE_PAYLOAD_TEXT_LENGTH as int + overflow);
    if attempt.len() <= TARGET_CUE_PAYLOAD_TEXT_MAX_LINES as int || overflow
        >= MAX_CUE_PAYLOAD_TEXT_OVERFLOW as int {
        attempt
    } else {
        wrap_relaxed_from(s, overflow + 1)
    }
}

/// What wrapping one trimmed payload line produces.
pub open spec fn wrap_relaxed(s: Seq<char>) -> Seq<Seq<char>> {
    wrap_relaxed_from(s, 0)
}

proof fn lemma_wrap_spec_len0(s: Seq<char>, w: int)
    ensures
        (wrap_spec(s, w).len() == 0) <==> (s.len() == 0),
{
}

proof fn lemma_wrap_relaxed_from_len0(s: Seq<char>, overflow: int)
    requires
        0 <= overflow <= MAX_CUE_PAYLOAD_TEXT_OVERFLOW as int,
    ensures
        (wrap_relaxed_from(s, overflow).len() == 0) <==> (s.len() == 0),
    decreases MAX_CUE_PAYLOAD_TEXT_OVERFLOW as int - overflow,
{
    lemma_wrap_spec_len0(s, TARGET_CUE_PAYLOAD_TEXT_LENGTH as int + overflow);
    let attempt = wrap_spec(s, TARGET_CUE_PAYLOAD_TEXT_LENGTH as int + overflow);
    if !(attempt.len() <= TARGET_CUE_PAYLOAD_TEXT_MAX_LINES as int || overflow
        >= MAX_CUE_PAYLOAD_TEXT_OVERFLOW as int) {
        lemma_wrap_relaxed_from_len0(s, overflow + 1);
    }
}

/// The wrapper yields no lines exactly for empty (all-whitespace) input.
pub proof fn lemma_wrap_relaxed_len0(s: Seq<char>)
    ensures
        (wrap_relaxed(s).len() == 0) <==> (s.len() == 0),
{
    lemma_wrap_relaxed_from_len0(s, 0);
}

fn find_last_space(s: &str, lo: usize, hi: usize) -> (r: Option<usize>)
    requires
        lo <= hi < s@.len(),
    ensures
        match r {
            Some(p) => lo <= p <= hi && s@[p as int] == ' ' && (forall|k: int|
                p < k <= hi ==> s@[k] != ' '),
            None => forall|k: int| lo <= k <= hi ==> s@[k] != ' ',
        },
{
    let mut k: usize = hi;
    while k > lo
        invariant
            lo <= k <= hi < s@.len(),
            forall|m: int| k < m <= hi ==> s@[m] != ' ',
        decreases k,
    {
        if s.get_char(k) == ' ' {
            return Some(k);
        }
        k -= 1;
    }
    if s.get_char(lo) == ' ' {
        Some(lo)
    } else {
        None
    }
}

fn find_first_space(s: &str, from: usize) -> (r: Option<usize>)
    ensures
        match r {
            Some(q) => from <= q < s@.len() && s@[q as int] == ' ' && (forall|k: int|
                from <= k < q ==> s@[k] != ' '),
            None => forall|k: int| from <= k < s@.len() ==> s@[k] != ' ',
        },
{
    let n = s.unicode_len();
    if from >= n {
        return None;
    }
    let mut k: usize = from;
    while k < n
        invariant
            n == s@.len(),
            from <= k <= n,
            forall|m: int| from <= m < k ==> s@[m] != ' ',
        decreases n - k,
    {
        if s.get_char(k) == ' ' {
            return Some(k);
        }
        k += 1;
    }
    None
}

fn skip_spaces(s: &str, from: usize) -> (a: usize)
    requires
        from <= s@.len(),
    ensures
        from <= a <= s@.len(),
        forall|k: int| from <= k < a ==> is_space(s@[k]),
        a < s@.len() ==> !is_space(s@[a as int]),
{
    let n = s.unicode_len();
    let mut a: usize = from;
    while a < n && is_space_char(s.get_char(a))
        invariant
            n == s@.len(),
            from <= a <= n,
            forall|k: int| from <= k < a ==> is_space(s@[k]),
        decreases n - a,
    {
        a += 1;
    }
    a
}

fn scan_back_spaces(s: &str, lo: usize, hi: usize) -> (b: usize)
    requires
        lo <= hi <= s@.len(),
    ensures
        lo <= b <= hi,
        forall|k: int| b <= k < hi ==> is_space(s@[k]),
        b > lo ==> !is_space(s@[b - 1]),
{
    let mut b: usize = hi;
    while b > lo && is_space_char(s.get_char(b - 1))
        invariant
            lo <= b <= hi <= s@.len(),
            forall|k: int| b <= k < hi ==> is_space(s@[k]),
        decreases b,
    {
        b -= 1;
    }
    b
}

/// One greedy wrap attempt at width `w`.
#[verifier::rlimit(60)]
fn wrap_at(s: &str, w: usize) -> (r: Vec<String>)
    requires
        1 <= w,
        is_trimmed(s@),
    ensures
        views(r@) == wrap_spec(s@, w as int),
{
    let n = s.unicode_len();
    let mut r: Vec<String> = Vec::new();
    let mut j: usize = 0;
    proof {
        assert(s@.subrange(0, n as int) =~= s@);
        assert(views(r@) + wrap_spec(s@, w as int) =~~= wrap_spec(s@, w as int));
    }
    while j < n
        invariant
            n == s@.len(),
            j <= n,
            1 <= w,
            is_trimmed(s@.subrange(j as int, n as int)),
            views(r@) + wrap_spec(s@.subrange(j as int, n as int), w as int) == wrap_spec(
                s@,
                w as int,
            ),
        decreases n - j,
    {
        let ghost rest = s@.subrange(j as int, n as int);
        let ghost prev = r@;
        assert(!is_space(s@[j as int]) && !is_space(s@[n - 1]));
        if n - j <= w {
            let piece = s.substring_char(j, n);
            r.push(String::from_str(piece));
            proof {
                assert(wrap_spec(rest, w as int) == seq![rest]);
                lemma_views_after_push(prev, r@, rest);
                assert(s@.subrange(n as int, n as int) =~= Seq::<char>::empty());
                assert(views(r@) + wrap_spec(Seq::<char>::empty(), w as int) =~~= wrap_spec(
                    s@,
                    w as int,
                ));
            }
            j = n;
        } else {
            let p_opt = find_last_space(s, j, j + w);
            match p_opt {
                Some(pa) => {
                    proof {
                        assert(rest[pa - j] == s@[pa as int]);
                        assert forall|k: int| (pa - j) < k <= w && k < rest.len() implies rest[k]
                            != ' ' by {
                            assert(rest[k] == s@[j + k]);
                        }
                        lemma_last_space_found(rest, w as int, pa - j);
                        assert(pa > j);
                    }
                    let b = scan_back_spaces(s, j, pa);
                    proof {
                        let seg = rest.subrange(0, pa - j);
                        assert forall|k: int| (b - j) <= k < seg.len() implies is_space(
                            seg[k],
                        ) by {
                            assert(seg[k] == s@[j + k]);
                        }
                        assert(b > j) by {
                            if b == j {
                                assert(is_space(s@[j as int]));
                            }
                        }
                        assert(b - j == 0 || !is_space(seg[b - j - 1]));
                        lemma_rtrim_subrange(seg, b - j);
                        assert(seg.subrange(0, b - j) =~= s@.subrange(j as int, b as int));
                    }
                    let piece = s.substring_char(j, b);
                    r.push(String::from_str(piece));
                    assert(pa + 1 < n) by {
                        if pa + 1 == n {
                            assert(is_space(s@[n - 1]));
                        }
                    }
                    let a = skip_spaces(s, pa + 1);
                    proof {
                        let tail = rest.subrange(pa - j + 1, rest.len() as int);
                        assert forall|k: int| 0 <= k < (a - pa - 1) implies is_space(tail[k]) by {
                            assert(tail[k] == s@[pa + 1 + k]);
                        }
                        assert(a < n) by {
                            if a == n {
                                assert(is_space(s@[n - 1]));
                            }
                        }
                        assert(tail[a - pa - 1] == s@[a as int]);
                        lemma_ltrim_subrange(tail, a - pa - 1);
                        assert(tail.subrange(a - pa - 1, tail.len() as int) =~= s@.subrange(
                            a as int,
                            n as int,
                        ));
                        lemma_views_after_push(prev, r@, s@.subrange(j as int, b as int));
                        assert(wrap_spec(rest, w as int) == seq![
                            s@.subrange(j as int, b as int),
                        ] + wrap_spec(s@.subrange(a as int, n as int), w as int));
                        assert(views(r@) + wrap_spec(s@.subrange(a as int, n as int), w as int)
                            =~~= wrap_spec(s@, w as int));
                        assert(is_trimmed(s@.subrange(a as int, n as int)));
                    }
                    j = a;
                },
                None => {
                    proof {
                        assert forall|k: int| 0 <= k <= w && k < rest.len() implies rest[k]
                            != ' ' by {
                            assert(rest[k] == s@[j + k]);
                        }
                        lemma_last_space_none(rest, w as int);
                    }
                    let q_opt = find_first_space(s, j + w + 1);
                    match q_opt {
                        Some(qa) => {
                            proof {
                                assert(rest[qa - j] == s@[qa as int]);
                                assert forall|k: int| w + 1 <= k < (qa - j) implies rest[k]
                                    != ' ' by {
                                    assert(rest[k] == s@[j + k]);
                                }
                                lemma_first_space_found(rest, w as int + 1, qa - j);
                            }
                            let piece = s.substring_char(j, qa);
                            r.push(String::from_str(piece));
                            assert(qa + 1 < n) by {
                                if qa + 1 == n {
                                    assert(is_space(s@[n - 1]));
                                }
                            }
                            let a = skip_spaces(s, qa + 1);
                            proof {
                                let tail = rest.subrange(qa - j + 1, rest.len() as int);
                                assert forall|k: int| 0 <= k < (a - qa - 1) implies is_space(
                                    tail[k],
                                ) by {
                                    assert(tail[k] == s@[qa + 1 + k]);
                                }
                                assert(a < n) by {
                                    if a == n {
                                        assert(is_space(s@[n - 1]));
                                    }
                                }
                                assert(tail[a - qa - 1] == s@[a as int]);
                                lemma_ltrim_subrange(tail, a - qa - 1);
                                assert(tail.subrange(a - qa - 1, tail.len() as int) =~= s@.subrange(
                                    a as int,
                                    n as int,
                                ));
                                assert(rest.subrange(0, qa - j) =~= s@.subrange(
                                    j as int,
                                    qa as int,
                                ));
                                lemma_views_after_push(prev, r@, s@.subrange(j as int, qa as int));
                                assert(wrap_spec(rest, w as int) == seq![
                                    s@.subrange(j as int, qa as int),
                                ] + wrap_spec(s@.subrange(a as int, n as int), w as int));
                                assert(views(r@) + wrap_spec(
                                    s@.subrange(a as int, n as int),
                                    w as int,
                                ) =~~= wrap_spec(s@, w as int));
                                assert(is_trimmed(s@.subrange(a as int, n as int)));
                            }
                            j = a;
                        },
                        None => {
                            proof {
                                assert forall|k: int| w + 1 <= k < rest.len() implies rest[k]
                                    != ' ' by {
                                    assert(rest[k] == s@[j + k]);
                                }
                                lemma_first_space_none(rest, w as int + 1);
                            }
                            let piece = s.substring_char(j, n);
                            r.push(String::from_str(piece));
                            proof {
                                assert(wrap_spec(rest, w as int) == seq![rest]);
                                lemma_views_after_push(prev, r@, rest);
                                assert(s@.subrange(n as int, n as int) =~= Seq::<char>::empty());
                                assert(views(r@) + wrap_spec(Seq::<char>::empty(), w as int)
                                    =~~= wrap_spec(s@, w as int));
                            }
                            j = n;
                        },
                    }
                },
            }
        }
    }
    proof {
        assert(s@.subrange(n as int, n as int) =~= Seq::<char>::empty());
        assert(views(r@) =~~= wrap_spec(s@, w as int));
    }
    r
}

/// Wrap one trimmed payload line, relaxing the width limit while the line
/// budget is exceeded and the overflow budget allows.
fn wrap_line(s: &str) -> (r: Vec<String>)
    requires
        is_trimmed(s@),
    ensures
        views(r@) == wrap_relaxed(s@),
{
    let mut overflow: usize = 0;
    loop
        invariant
            is_trimmed(s@),
            overflow <= MAX_CUE_PAYLOAD_TEXT_OVERFLOW,
            wrap_relaxed_from(s@, overflow as int) == wrap_relaxed(s@),
        decreases MAX_CUE_PAYLOAD_TEXT_OVERFLOW - overflow,
    {
        let attempt = wrap_at(s, TARGET_CUE_PAYLOAD_TEXT_LENGTH + overflow);
        if attempt.len() <= TARGET_CUE_PAYLOAD_TEXT_MAX_LINES || overflow
            >= MAX_CUE_PAYLOAD_TEXT_OVERFLOW {
            return attempt;
        }
        overflow += 1;
    }
}

/// The wrapped lines rejoined with single spaces.
pub open spec fn join_spaces(ls: Seq<Seq<char>>) -> Seq<char>
    decreases ls.len(),
{
    if ls.len() == 0 {
        Seq::empty()
    } else if ls.len() == 1 {
        ls[0]
    } else {
        ls[0] + seq![' '] + join_spaces(ls.drop_first())
    }
}

/// Whitespace in the text is plain single spaces: every whitespace character
/// is `' '`, and no two stand next to each other.
pub open spec fn single_spaced(t: Seq<char>) -> bool {
    &&& forall|i: int| 0 <= i < t.len() ==> (is_space(#[trigger] t[i]) ==> t[i] == ' ')
    &&& forall|i: int|
        0 <= i && i + 1 < t.len() ==> !(is_space(#[trigger] t[i]) && is_space(t[i + 1]))
}

proof fn lemma_wrap_join(t: Seq<char>, w: int)
    requires
        is_trimmed(t),
        single_spaced(t),
        w >= 1,
    ensures
        join_spaces(wrap_spec(t, w)) == t,
    decreases t.len(),
{
    if t.len() == 0 {
        assert(join_spaces(wrap_spec(t, w)) =~= t);
    } else if t.len() <= w {
    } else {
        let p = last_space_upto(t, w);
        lemma_last_space_bounds(t, w);
        if 0 <= p {
            assert(is_space(t[p]));
            assert(p >= 1);
            assert(!is_space(t[p - 1]));
            let seg = t.subrange(0, p);
            assert(seg.last() == t[p - 1]);
            assert(rtrim(seg) == seg);
            assert(p + 1 < t.len()) by {
                if p + 1 == t.len() {
                    assert(is_space(t[t.len() - 1]));
                }
            }
            assert(!is_space(t[p + 1]));
            let tail = t.subrange(p + 1, t.len() as int);
            assert(tail[0] == t[p + 1]);
            assert(ltrim(tail) == tail);
            assert(is_trimmed(tail));
            assert(single_spaced(tail)) by {
                assert(forall|i: int| 0 <= i < tail.len() ==> #[trigger] tail[i] == t[p + 1 + i]);
            }
            lemma_wrap_join(tail, w);
            let ws = wrap_spec(tail, w);
            lemma_wrap_spec_len0(tail, w);
            let full = seq![seg] + ws;
            assert(wrap_spec(t, w) == full);
            assert(full[0] == seg);
            assert(full.drop_first() =~= ws);
            assert(join_spaces(full) == seg + seq![' '] + join_spaces(ws));
            assert(seg + seq![' '] + tail =~= t);
        } else {
            let q = first_space_from(t, w + 1);
            lemma_first_space_bounds(t, w + 1);
            if 0 <= q {
                assert(is_space(t[q]));
                assert(q >= 1);
                let seg = t.subrange(0, q);
                assert(q + 1 < t.len()) by {
                    if q + 1 == t.len() {
                        assert(is_space(t[t.len() - 1]));
                    }
                }
                assert(!is_space(t[q + 1]));
                let tail = t.subrange(q + 1, t.len() as int);
                assert(tail[0] == t[q + 1]);
                assert(ltrim(tail) == tail);
                assert(is_trimmed(tail));
                assert(single_spaced(tail)) by {
                    assert(forall|i: int|
                        0 <= i < tail.len() ==> #[trigger] tail[i] == t[q + 1 + i]);
                }
                lemma_wrap_join(tail, w);
                let ws = wrap_spec(tail, w);
                lemma_wrap_spec_len0(tail, w);
                let full = seq![seg] + ws;
                assert(wrap_spec(t, w) == full);
                assert(full[0] == seg);
                assert(full.drop_first() =~= ws);
                assert(join_spaces(full) == seg + seq![' '] + join_spaces(ws));
                assert(seg + seq![' '] + tail =~= t);
            }
        }
    }
}

proof fn lemma_wrap_relaxed_join(t: Seq<char>, overflow: int)
    requires
        is_trimmed(t),
        single_spaced(t),
        0 <= overflow <= MAX_CUE_PAYLOAD_TEXT_OVERFLOW as int,
    ensures
        join_spaces(wrap_relaxed_from(t, overflow)) == t,
    decreases MAX_CUE_PAYLOAD_TEXT_OVERFLOW as int - overflow,
{
    lemma_wrap_join(t, TARGET_CUE_PAYLOAD_TEXT_LENGTH as int + overflow);
    let attempt = wrap_spec(t, TARGET_CUE_PAYLOAD_TEXT_LENGTH as int + overflow);
    if !(attempt.len() <= TARGET_CUE_PAYLOAD_TEXT_MAX_LINES as int || overflow
        >= MAX_CUE_PAYLOAD_TEXT_OVERFLOW as int) {
        lemma_wrap_relaxed_join(t, overflow + 1);
    }
}

/// The wrapper is idempotent on whitespace: for trimmed, single-spaced text,
/// the wrapped sub-lines rejoined with single spaces give back the text
/// exactly, so re-wrapping the rejoined output equals wrapping the original
/// (the word sequence is preserved).
pub proof fn lemma_wrap_idempotent(t: Seq<char>)
    requires
        is_trimmed(t),
        single_spaced(t),
    ensures
        join_spaces(wrap_relaxed(t)) == t,
        wrap_relaxed(join_spaces(wrap_relaxed(t))) == wrap_relaxed(t),
{
    lemma_wrap_relaxed_join(t, 0);
}

proof fn lemma_wrap_lines(t: Seq<char>, w: int)
    requires
        is_trimmed(t),
        w >= 1,
    ensures
        forall|i: int|
            0 <= i < wrap_spec(t, w).len() ==> (#[trigger] wrap_spec(t, w)[i]).len() > 0,
    decreases t.len(),
{
    if t.len() == 0 {
    } else if t.len() <= w {
    } else {
        assert(!is_space(t[0]) && !is_space(t[t.len() - 1]));
        let p = last_space_upto(t, w);
        lemma_last_space_bounds(t, w);
        if 0 <= p {
            assert(is_space(t[p]));
            assert(p >= 1);
            let seg = t.subrange(0, p);
            assert(seg[0] == t[0]);
            crate::text::lemma_rtrim_props(seg);
            let tail0 = t.subrange(p + 1, t.len() as int);
            lemma_ltrim_props(tail0);
            let tail = ltrim(tail0);
            assert(is_trimmed(tail)) by {
                if tail.len() > 0 {
                    assert(tail0.last() == t[t.len() - 1]);
                }
            }
            lemma_wrap_lines(tail, w);
            let full = seq![rtrim(seg)] + wrap_spec(tail, w);
            assert(wrap_spec(t, w) == full);
            assert forall|i: int| 0 <= i < full.len() implies (#[trigger] full[i]).len() > 0 by {
                if i > 0 {
                    assert(full[i] == wrap_spec(tail, w)[i - 1]);
                }
            }
        } else {
            let q = first_space_from(t, w + 1);
            lemma_first_space_bounds(t, w + 1);
            if 0 <= q {
                assert(is_space(t[q]));
                assert(q >= 1);
                let seg = t.subrange(0, q);
                let tail0 = t.subrange(q + 1, t.len() as int);
                lemma_ltrim_props(tail0);
                let tail = ltrim(tail0);
                assert(is_trimmed(tail)) by {
                    if tail.len() > 0 {
                        assert(tail0.last() == t[t.len() - 1]);
                    }
                }
                lemma_wrap_lines(tail, w);
                let full = seq![seg] + wrap_spec(tail, w);
                assert(wrap_spec(t, w) == full);
                assert forall|i: int| 0 <= i < full.len() implies (#[trigger] full[i]).len()
                    > 0 by {
                    if i > 0 {
                        assert(full[i] == wrap_spec(tail, w)[i - 1]);
                    }
                }
            }
        }
    }
}

proof fn lemma_wrap_relaxed_lines(t: Seq<char>, overflow: int)
    requires
        is_trimmed(t),
        0 <= overflow <= MAX_CUE_PAYLOAD_TEXT_OVERFLOW as int,
    ensures
        forall|i: int|
            0 <= i < wrap_relaxed_from(t, overflow).len() ==> (#[trigger] wrap_relaxed_from(
                t,
                overflow,
            )[i]).len() > 0,
    decreases MAX_CUE_PAYLOAD_TEXT_OVERFLOW as int - overflow,
{
    lemma_wrap_lines(t, TARGET_CUE_PAYLOAD_TEXT_LENGTH as int + overflow);
    let attempt = wrap_spec(t, TARGET_CUE_PAYLOAD_TEXT_LENGTH as int + overflow);
    if !(attempt.len() <= TARGET_CUE_PAYLOAD_TEXT_MAX_LINES as int || overflow
        >= MAX_CUE_PAYLOAD_TEXT_OVERFLOW as int) {
        lemma_wrap_relaxed_lines(t, overflow + 1);
        assert forall|i: int| 0 <= i < wrap_relaxed_from(t, overflow).len() implies (
        #[trigger] wrap_relaxed_from(t, overflow)[i]).len() > 0 by {
            assert(wrap_relaxed_from(t, overflow)[i] == wrap_relaxed_from(t, overflow + 1)[i]);
        }
    } else {
        assert forall|i: int| 0 <= i < wrap_relaxed_from(t, overflow).len() implies (
        #[trigger] wrap_relaxed_from(t, overflow)[i]).len() > 0 by {
            assert(wrap_relaxed_from(t, overflow)[i] == attempt[i]);
        }
    }
}

/// No sub-line produced by the wrapper is empty, for any trimmed input.
pub proof fn lemma_wrap_no_empty_lines(t: Seq<char>)
    requires
        is_trimmed(t),
    ensures
        forall|i: int|
            0 <= i < wrap_relaxed(t).len() ==> (#[trigger] wrap_relaxed(t)[i]).len() > 0,
{
    lemma_wrap_relaxed_lines(t, 0);
}

/// Wrap one physical payload line: the line is trimmed, then re-flowed under
/// the width policy. All-whitespace input yields no lines at all, which the
/// classifier reads as the end of a cue block.
pub fn parse_cue_payload_text(line: &str) -> (r: Vec<String>)
    ensures
        views(r@) == wrap_relaxed(trim(line@)),
        (r@.len() == 0) <==> (trim(line@).len() == 0),
        forall|i: int| 0 <= i < r@.len() ==> (#[trigger] r@[i])@.len() > 0,
{
    proof {
        lemma_trim_trimmed(line@);
        lemma_wrap_relaxed_len0(trim(line@));
        lemma_wrap_no_empty_lines(trim(line@));
    }
    let t = trim_str(line);
    let r = wrap_line(t);
    proof {
        assert forall|i: int| 0 <= i < r@.len() implies (#[trigger] r@[i])@.len() > 0 by {
            assert(r@[i]@ == views(r@)[i]);
            assert(views(r@)[i] == wrap_relaxed(trim(line@))[i]);
        }
    }
    r
}

} // verus!
