//! Whitespace handling shared by the payload wrapper and the line classifier:
//! trimming, and the view of a list of strings as a list of character
//! sequences.

use vstd::prelude::*;

verus! {

/// A whitespace character as this library counts them: the blanks that can
/// surround caption text on a physical line.
pub open spec fn is_space(c: char) -> bool {
    c == ' ' || c == '\t' || c == '\r' || c == '\n'
}

pub fn is_space_char(c: char) -> (b: bool)
    ensures
        b == is_space(c),
{
    c == ' ' || c == '\t' || c == '\r' || c == '\n'
}

/// The input with leading whitespace removed.
pub open spec fn ltrim(s: Seq<char>) -> Seq<char>
    decreases s.len(),
{
    if s.len() > 0 && is_space(s[0]) {
        ltrim(s.drop_first())
    } else {
        s
    }
}

/// The input with trailing whitespace removed.
pub open spec fn rtrim(s: Seq<char>) -> Seq<char>
    decreases s.len(),
{
    if s.len() > 0 && is_space(s.last()) {
        rtrim(s.drop_last())
    } else {
        s
    }
}

/// The input with whitespace removed at both ends.
pub open spec fn trim(s: Seq<char>) -> Seq<char> {
    ltrim(rtrim(s))
}

/// Nonempty trimmed text neither starts nor ends with whitespace.
pub open spec fn is_trimmed(s: Seq<char>) -> bool {
    s.len() == 0 || (!is_space(s[0]) && !is_space(s[s.len() - 1]))
}

/// The character sequences of a list of strings.
pub open spec fn views(v: Seq<String>) -> Seq<Seq<char>> {
    v.map_values(|x: String| x@)
}

pub proof fn lemma_views_concat(a: Seq<String>, b: Seq<String>)
    ensures
        views(a + b) == views(a) + views(b),
{
    assert(views(a + b) =~= views(a) + views(b));
}

/// Pushing one string onto a list pushes its characters onto the views.
pub proof fn lemma_views_after_push(prev: Seq<String>, cur: Seq<String>, pv: Seq<char>)
    requires
        cur.len() == prev.len() + 1,
        forall|k: int| 0 <= k < prev.len() ==> cur[k] == prev[k],
        cur[prev.len() as int]@ == pv,
    ensures
        views(cur) == views(prev).push(pv),
{
    assert(views(cur) =~~= views(prev).push(pv));
}

/// Basic shape facts about `ltrim`: it only removes a prefix, its result does
/// not start with whitespace, and it keeps the last character.
pub proof fn lemma_ltrim_props(s: Seq<char>)
    ensures
        ltrim(s).len() <= s.len(),
        ltrim(s).len() > 0 ==> !is_space(ltrim(s)[0]),
        ltrim(s).len() > 0 ==> s.len() > 0 && ltrim(s).last() == s.last(),
        s.len() > 0 && !is_space(s.last()) ==> ltrim(s).len() > 0,
    decreases s.len(),
{
    if s.len() > 0 && is_space(s[0]) {
        lemma_ltrim_props(s.drop_first());
        if s.len() == 1 {
            assert(s.drop_first().len() == 0);
        } else {
            assert(s.drop_first().last() == s.last());
        }
    }
}

/// Basic shape facts about `rtrim`, mirroring `lemma_ltrim_props`.
pub proof fn lemma_rtrim_props(s: Seq<char>)
    ensures
        rtrim(s).len() <= s.len(),
        rtrim(s).len() > 0 ==> !is_space(rtrim(s).last()),
        rtrim(s).len() > 0 ==> s.len() > 0 && rtrim(s)[0] == s[0],
        s.len() > 0 && !is_space(s[0]) ==> rtrim(s).len() > 0,
    decreases s.len(),
{
    if s.len() > 0 && is_space(s.last()) {
        lemma_rtrim_props(s.drop_last());
        if s.len() == 1 {
            assert(s.drop_last().len() == 0);
        } else {
            assert(s.drop_last()[0] == s[0]);
        }
    }
}

/// Trimming yields trimmed text.
pub proof fn lemma_trim_trimmed(s: Seq<char>)
    ensures
        is_trimmed(trim(s)),
        trim(s).len() <= s.len(),
{
    lemma_rtrim_props(s);
    lemma_ltrim_props(rtrim(s));
}

/// `ltrim` removes exactly the whitespace prefix: if the first `a` characters
/// are whitespace and the one after them (if any) is not, the result is the
/// rest of the sequence.
pub proof fn lemma_ltrim_subrange(s: Seq<char>, a: int)
    requires
        0 <= a <= s.len(),
        forall|k: int| 0 <= k < a ==> is_space(s[k]),
        a == s.len() || !is_space(s[a]),
    ensures
        ltrim(s) == s.subrange(a, s.len() as int),
    decreases a,
{
    if a == 0 {
        assert(s == s.subrange(0, s.len() as int));
    } else {
        lemma_ltrim_subrange(s.drop_first(), a - 1);
        assert(s.drop_first().subrange(a - 1, s.drop_first().len() as int) =~= s.subrange(
            a,
            s.len() as int,
        ));
    }
}

/// `rtrim` removes exactly the whitespace suffix.
pub proof fn lemma_rtrim_subrange(s: Seq<char>, b: int)
    requires
        0 <= b <= s.len(),
        forall|k: int| b <= k < s.len() ==> is_space(s[k]),
        b == 0 || !is_space(s[b - 1]),
    ensures
        rtrim(s) == s.subrange(0, b),
    decreases s.len(),
{
    if b == s.len() {
        assert(s == s.subrange(0, s.len() as int));
    } else {
        assert(is_space(s.last()));
        lemma_rtrim_subrange(s.drop_last(), b);
        assert(s.drop_last().subrange(0, b) =~= s.subrange(0, b));
    }
}

/// Returns the input with leading and trailing whitespace removed.
pub fn trim_str<'a>(s: &'a str) -> (t: &'a str)
    ensures
        t@ == trim(s@),
        is_trimmed(t@),
{
    proof {
        lemma_trim_trimmed(s@);
    }
    let n = s.unicode_len();
    let mut a: usize = 0;
    while a < n && is_space_char(s.get_char(a))
        invariant
            n == s@.len(),
            a <= n,
            forall|k: int| 0 <= k < a ==> is_space(s@[k]),
        decreases n - a,
    {
        a += 1;
    }
    if a == n {
        proof {
            lemma_rtrim_subrange(s@, 0);
            assert(rtrim(s@) =~= Seq::<char>::empty());
            assert(trim(s@) =~= s@.subrange(n as int, n as int));
        }
        return s.substring_char(n, n);
    }
    let mut b: usize = n;
    while is_space_char(s.get_char(b - 1))
        invariant
            n == s@.len(),
            a < n,
            a + 1 <= b <= n,
            !is_space(s@[a as int]),
            forall|k: int| b <= k < n ==> is_space(s@[k]),
        decreases b,
    {
        b -= 1;
    }
    proof {
        lemma_rtrim_subrange(s@, b as int);
        lemma_ltrim_subrange(s@.subrange(0, b as int), a as int);
        assert(s@.subrange(0, b as int).subrange(a as int, b as int) =~= s@.subrange(
            a as int,
            b as int,
        ));
    }
    s.substring_char(a, b)
}

/// Character-for-character string equality.
pub fn str_eq(a: &str, b: &str) -> (r: bool)
    ensures
        r == (a@ == b@),
{
    let na = a.unicode_len();
    let nb = b.unicode_len();
    if na != nb {
        return false;
    }
    let mut i: usize = 0;
    while i < na
        invariant
            na == a@.len(),
            na == b@.len(),
            i <= na,
            forall|k: int| 0 <= k < i ==> a@[k] == b@[k],
        decreases na - i,
    {
        if a.get_char(i) != b.get_char(i) {
            return false;
        }
        i += 1;
    }
    proof {
        assert(a@ =~= b@);
    }
    true
}

} // verus!
