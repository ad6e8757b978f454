//! The line classifier and token assembler. The classifier walks the input
//! one physical line at a time. In the header region it recognizes cue-timing
//! lines, `Key: Value` header assignments and free preamble text; on the
//! first cue it injects canonical `Kind` / `Language` headers when none were
//! declared. Inside a cue block every line is re-flowed by the payload
//! wrapper until a blank line (or end of input) closes the block with exactly
//! one blank token.

use vstd::prelude::*;

use crate::parse::cue_token;
use crate::parse::is_cue_timing;
use crate::parse::is_header;
use crate::parse::header_key;
use crate::parse::parse_cue_timings;
use crate::parse::parse_header_value;
use crate::text::lemma_views_after_push;
use crate::text::lemma_views_concat;
use crate::text::str_eq;
use crate::text::trim;
use crate::text::views;
use crate::wrap::parse_cue_payload_text;
use crate::wrap::wrap_relaxed;

verus! {

/// Where the classifier stands in the file.
#[derive(Clone, Copy, PartialEq, Eq, Structural)]
pub enum Phase {
    /// Scanning the header region or the gap between cues, tracking whether
    /// canonical `Kind` / `Language` header values have been seen.
    Headers { kind_seen: bool, language_seen: bool },
    /// Consuming the payload lines of an open cue block.
    Cue,
}

/// The canonical header token injected when no `Kind` header was declared.
pub open spec fn kind_tok() -> Seq<char> {
    "Kind: captions"@
}

/// The canonical header token injected when no `Language` header was declared.
pub open spec fn lang_tok() -> Seq<char> {
    "Language: en-GB"@
}

/// The classifier starts with neither canonical header seen.
pub open spec fn init_phase() -> Phase {
    Phase::Headers { kind_seen: false, language_seen: false }
}

/// After the first cue both header flags are settled for good.
pub open spec fn closed_phase() -> Phase {
    Phase::Headers { kind_seen: true, language_seen: true }
}

/// The line is a header assignment whose key is `Kind`.
pub open spec fn is_kind_header(line: Seq<char>) -> bool {
    is_header(line) && header_key(line) == "Kind"@
}

/// The line is a header assignment whose key is `Language`.
pub open spec fn is_lang_header(line: Seq<char>) -> bool {
    is_header(line) && header_key(line) == "Language"@
}

/// Header tokens injected immediately before the first cue-timing token:
/// each canonical header that was never declared, then one blank separator
/// when anything was injected.
pub open spec fn inject_tokens(k: bool, l: bool) -> Seq<Seq<char>> {
    (if !k {
        seq![kind_tok()]
    } else {
        Seq::<Seq<char>>::empty()
    }) + (if !l {
        seq![lang_tok()]
    } else {
        Seq::<Seq<char>>::empty()
    }) + (if !k || !l {
        seq![Seq::<char>::empty()]
    } else {
        Seq::<Seq<char>>::empty()
    })
}

/// Tokens emitted for one input line.
pub open spec fn step_tokens(line: Seq<char>, ph: Phase) -> Seq<Seq<char>> {
    match ph {
        Phase::Headers { kind_seen, language_seen } => {
            if is_cue_timing(line) {
                inject_tokens(kind_seen, language_seen).push(cue_token(line))
            } else {
                let k2 = kind_seen || is_kind_header(line);
                let l2 = language_seen || is_lang_header(line);
                if !k2 && !l2 && line.len() > 0 {
                    seq![line]
                } else {
                    Seq::<Seq<char>>::empty()
                }
            }
        },
        Phase::Cue => {
            if trim(line).len() == 0 {
                seq![Seq::<char>::empty()]
            } else {
                wrap_relaxed(trim(line))
            }
        },
    }
}

/// State after one input line.
pub open spec fn step_phase(line: Seq<char>, ph: Phase) -> Phase {
    match ph {
        Phase::Headers { kind_seen, language_seen } => {
            if is_cue_timing(line) {
                Phase::Cue
            } else {
                Phase::Headers {
                    kind_seen: kind_seen || is_kind_header(line),
                    language_seen: language_seen || is_lang_header(line),
                }
            }
        },
        Phase::Cue => {
            if trim(line).len() == 0 {
                closed_phase()
            } else {
                Phase::Cue
            }
        },
    }
}

/// All tokens the classifier emits from line `i` on, starting in phase `ph`.
/// A cue block still open at end of input is closed with one blank token.
pub open spec fn tokens_from(lines: Seq<Seq<char>>, i: int, ph: Phase) -> Seq<Seq<char>>
    decreases lines.len() - i,
        when 0 <= i
{
    if i >= lines.len() {
        match ph {
            Phase::Cue => seq![Seq::<char>::empty()],
            Phase::Headers { .. } => Seq::<Seq<char>>::empty(),
        }
    } else {
        step_tokens(lines[i], ph) + tokens_from(lines, i + 1, step_phase(lines[i], ph))
    }
}

/// The normalized token list for a whole input.
pub open spec fn normalized_tokens(lines: Seq<Seq<char>>) -> Seq<Seq<char>> {
    tokens_from(lines, 0, init_phase())
}

/// Tokens emitted strictly before the first cue-timing token, scanning from
/// line `i` with header flags `k`, `l`: the pass-through preamble followed by
/// whatever headers the first cue injects.
pub open spec fn preamble_tokens(lines: Seq<Seq<char>>, i: int, k: bool, l: bool) -> Seq<Seq<char>>
    decreases lines.len() - i,
        when 0 <= i
{
    if i >= lines.len() {
        Seq::<Seq<char>>::empty()
    } else if is_cue_timing(lines[i]) {
        inject_tokens(k, l)
    } else {
        step_tokens(lines[i], Phase::Headers { kind_seen: k, language_seen: l })
            + preamble_tokens(
            lines,
            i + 1,
            k || is_kind_header(lines[i]),
            l || is_lang_header(lines[i]),
        )
    }
}

/// Scanning for a cue from line `i`, the output splits into the preamble,
/// the first cue-timing token, and the cue block that follows.
pub proof fn lemma_split_at_cue(lines: Seq<Seq<char>>, i: int, k: bool, l: bool, c: int)
    requires
        0 <= i <= c < lines.len(),
        is_cue_timing(lines[c]),
        forall|j: int| i <= j < c ==> !is_cue_timing(#[trigger] lines[j]),
    ensures
        tokens_from(lines, i, Phase::Headers { kind_seen: k, language_seen: l })
            == preamble_tokens(lines, i, k, l) + seq![cue_token(lines[c])] + tokens_from(
            lines,
            c + 1,
            Phase::Cue,
        ),
    decreases c - i,
{
    if i == c {
        assert(inject_tokens(k, l).push(cue_token(lines[c])) =~~= inject_tokens(k, l) + seq![
            cue_token(lines[c]),
        ]);
        assert(tokens_from(lines, i, Phase::Headers { kind_seen: k, language_seen: l })
            =~~= preamble_tokens(lines, i, k, l) + seq![cue_token(lines[c])] + tokens_from(
            lines,
            c + 1,
            Phase::Cue,
        ));
    } else {
        let k2 = k || is_kind_header(lines[i]);
        let l2 = l || is_lang_header(lines[i]);
        lemma_split_at_cue(lines, i + 1, k2, l2, c);
        assert(tokens_from(lines, i, Phase::Headers { kind_seen: k, language_seen: l })
            =~~= preamble_tokens(lines, i, k, l) + seq![cue_token(lines[c])] + tokens_from(
            lines,
            c + 1,
            Phase::Cue,
        ));
    }
}

/// The canonical injected tokens are themselves header assignments with keys
/// `Kind` and `Language`.
proof fn lemma_canonical_header_tokens()
    ensures
        is_kind_header(kind_tok()),
        is_lang_header(lang_tok()),
        kind_tok().len() > 0,
        lang_tok().len() > 0,
{
    reveal_strlit("Kind: captions");
    reveal_strlit("Kind");
    reveal_strlit("Language: en-GB");
    reveal_strlit("Language");
    crate::parse::lemma_alnum_end_from(kind_tok(), 0, 4);
    assert(header_key(kind_tok()) =~= "Kind"@);
    crate::parse::lemma_alnum_end_from(lang_tok(), 0, 8);
    assert(header_key(lang_tok()) =~= "Language"@);
}

/// When only blank lines precede the first cue and no header was declared,
/// the output begins with `Kind: captions`, `Language: en-GB`, one blank
/// separator, and the first cue-timing token.
pub proof fn lemma_headers_injected(lines: Seq<Seq<char>>, c: int)
    requires
        0 <= c < lines.len(),
        is_cue_timing(lines[c]),
        forall|j: int| 0 <= j < c ==> (#[trigger] lines[j]).len() == 0,
        forall|j: int| 0 <= j < c ==> !is_cue_timing(#[trigger] lines[j]),
    ensures
        normalized_tokens(lines) == seq![
            kind_tok(),
            lang_tok(),
            Seq::<char>::empty(),
            cue_token(lines[c]),
        ] + tokens_from(lines, c + 1, Phase::Cue),
{
    lemma_split_at_cue(lines, 0, false, false, c);
    lemma_blank_preamble(lines, 0, c);
    assert(preamble_tokens(lines, c, false, false) =~~= seq![
        kind_tok(),
        lang_tok(),
        Seq::<char>::empty(),
    ]);
    assert(normalized_tokens(lines) =~~= seq![
        kind_tok(),
        lang_tok(),
        Seq::<char>::empty(),
        cue_token(lines[c]),
    ] + tokens_from(lines, c + 1, Phase::Cue));
}

proof fn lemma_blank_preamble(lines: Seq<Seq<char>>, i: int, c: int)
    requires
        0 <= i <= c < lines.len(),
        is_cue_timing(lines[c]),
        forall|j: int| i <= j < c ==> (#[trigger] lines[j]).len() == 0,
        forall|j: int| i <= j < c ==> !is_cue_timing(#[trigger] lines[j]),
    ensures
        preamble_tokens(lines, i, false, false) == preamble_tokens(lines, c, false, false),
    decreases c - i,
{
    if i < c {
        assert(!is_kind_header(lines[i]) && !is_lang_header(lines[i]));
        lemma_blank_preamble(lines, i + 1, c);
        assert(preamble_tokens(lines, i, false, false) =~~= preamble_tokens(
            lines,
            i + 1,
            false,
            false,
        ));
    }
}

proof fn lemma_preamble_clean(lines: Seq<Seq<char>>, i: int, k: bool, l: bool, c: int)
    requires
        0 <= i <= c < lines.len(),
        is_cue_timing(lines[c]),
        forall|j: int| i <= j < c ==> !is_cue_timing(#[trigger] lines[j]),
        k || exists|m: int| i <= m < c && is_kind_header(#[trigger] lines[m]),
        l || exists|m: int| i <= m < c && is_lang_header(#[trigger] lines[m]),
    ensures
        forall|x: int|
            0 <= x < preamble_tokens(lines, i, k, l).len() ==> {
                let tok = #[trigger] preamble_tokens(lines, i, k, l)[x];
                tok.len() > 0 && tok != kind_tok() && tok != lang_tok()
            },
    decreases c - i,
{
    lemma_canonical_header_tokens();
    if i == c {
        assert(k && l);
        assert(preamble_tokens(lines, i, k, l) =~~= Seq::<Seq<char>>::empty());
    } else {
        let k2 = k || is_kind_header(lines[i]);
        let l2 = l || is_lang_header(lines[i]);
        if !k2 {
            let m = choose|m: int| i <= m < c && is_kind_header(#[trigger] lines[m]);
            assert(is_kind_header(lines[m]) && i + 1 <= m < c);
        }
        if !l2 {
            let m = choose|m: int| i <= m < c && is_lang_header(#[trigger] lines[m]);
            assert(is_lang_header(lines[m]) && i + 1 <= m < c);
        }
        lemma_preamble_clean(lines, i + 1, k2, l2, c);
        let emitted = step_tokens(lines[i], Phase::Headers { kind_seen: k, language_seen: l });
        assert forall|x: int| 0 <= x < emitted.len() implies {
            let tok = #[trigger] emitted[x];
            tok.len() > 0 && tok != kind_tok() && tok != lang_tok()
        } by {
            assert(!k2 && !l2 && lines[i].len() > 0);
            assert(emitted[x] == lines[i]);
            if lines[i] == kind_tok() {
                assert(is_kind_header(lines[i]));
            }
            if lines[i] == lang_tok() {
                assert(is_lang_header(lines[i]));
            }
        }
        assert forall|x: int| 0 <= x < preamble_tokens(lines, i, k, l).len() implies {
            let tok = #[trigger] preamble_tokens(lines, i, k, l)[x];
            tok.len() > 0 && tok != kind_tok() && tok != lang_tok()
        } by {
            if x < emitted.len() {
                assert(preamble_tokens(lines, i, k, l)[x] == emitted[x]);
            } else {
                assert(preamble_tokens(lines, i, k, l)[x] == preamble_tokens(
                    lines,
                    i + 1,
                    k2,
                    l2,
                )[x - emitted.len()]);
            }
        }
    }
}

/// When the input declares both canonical headers before the first cue, no
/// header tokens are injected: everything emitted before the first
/// cue-timing token is nonempty pass-through preamble, none of it equal to a
/// canonical header token or to a blank separator.
pub proof fn lemma_declared_headers_not_duplicated(lines: Seq<Seq<char>>, c: int)
    requires
        0 <= c < lines.len(),
        is_cue_timing(lines[c]),
        forall|j: int| 0 <= j < c ==> !is_cue_timing(#[trigger] lines[j]),
        exists|m: int| 0 <= m < c && is_kind_header(#[trigger] lines[m]),
        exists|m: int| 0 <= m < c && is_lang_header(#[trigger] lines[m]),
    ensures
        normalized_tokens(lines) == preamble_tokens(lines, 0, false, false) + seq![
            cue_token(lines[c]),
        ] + tokens_from(lines, c + 1, Phase::Cue),
        forall|x: int|
            0 <= x < preamble_tokens(lines, 0, false, false).len() ==> {
                let tok = #[trigger] preamble_tokens(lines, 0, false, false)[x];
                tok.len() > 0 && tok != kind_tok() && tok != lang_tok()
            },
{
    lemma_split_at_cue(lines, 0, false, false, c);
    lemma_preamble_clean(lines, 0, false, false, c);
}

/// Once a cue block is open, its payload tokens are all nonempty and exactly
/// one blank token closes the block, after which the classifier scans with
/// both header flags settled.
pub proof fn lemma_cue_block_closed(lines: Seq<Seq<char>>, i: int) -> (r: (Seq<Seq<char>>, int))
    requires
        0 <= i <= lines.len(),
    ensures
        i <= r.1 <= lines.len(),
        tokens_from(lines, i, Phase::Cue) == r.0 + seq![Seq::<char>::empty()] + tokens_from(
            lines,
            r.1,
            closed_phase(),
        ),
        forall|x: int| 0 <= x < r.0.len() ==> (#[trigger] r.0[x]).len() > 0,
    decreases lines.len() - i,
{
    if i >= lines.len() {
        let r = (Seq::<Seq<char>>::empty(), i);
        assert(tokens_from(lines, i, Phase::Cue) =~~= r.0 + seq![Seq::<char>::empty()]
            + tokens_from(lines, i, closed_phase()));
        r
    } else {
        let line = lines[i];
        if trim(line).len() == 0 {
            let r = (Seq::<Seq<char>>::empty(), i + 1);
            assert(tokens_from(lines, i, Phase::Cue) =~~= r.0 + seq![Seq::<char>::empty()]
                + tokens_from(lines, i + 1, closed_phase()));
            r
        } else {
            let pay = wrap_relaxed(trim(line));
            crate::text::lemma_trim_trimmed(line);
            crate::wrap::lemma_wrap_no_empty_lines(trim(line));
            let sub = lemma_cue_block_closed(lines, i + 1);
            let r = (pay + sub.0, sub.1);
            assert(tokens_from(lines, i, Phase::Cue) =~~= r.0 + seq![Seq::<char>::empty()]
                + tokens_from(lines, sub.1, closed_phase()));
            assert forall|x: int| 0 <= x < r.0.len() implies (#[trigger] r.0[x]).len() > 0 by {
                if x < pay.len() {
                    assert(r.0[x] == pay[x]);
                } else {
                    assert(r.0[x] == sub.0[x - pay.len()]);
                }
            }
            r
        }
    }
}

/// Between a closed cue block and the next cue nothing is emitted: in the
/// closed-headers state the remaining output is either empty or begins with
/// the next cue-timing token, with no headers injected before it.
pub proof fn lemma_between_cues(lines: Seq<Seq<char>>, i: int) -> (c: int)
    requires
        0 <= i <= lines.len(),
    ensures
        tokens_from(lines, i, closed_phase()).len() > 0 ==> {
            &&& i <= c < lines.len()
            &&& is_cue_timing(lines[c])
            &&& forall|j: int| i <= j < c ==> !is_cue_timing(#[trigger] lines[j])
            &&& tokens_from(lines, i, closed_phase()) == seq![cue_token(lines[c])] + tokens_from(
                lines,
                c + 1,
                Phase::Cue,
            )
        },
    decreases lines.len() - i,
{
    if i >= lines.len() {
        i
    } else {
        let line = lines[i];
        if is_cue_timing(line) {
            assert(tokens_from(lines, i, closed_phase()) =~~= seq![cue_token(line)] + tokens_from(
                lines,
                i + 1,
                Phase::Cue,
            ));
            i
        } else {
            assert(step_phase(line, closed_phase()) == closed_phase());
            assert(tokens_from(lines, i, closed_phase()) =~~= tokens_from(
                lines,
                i + 1,
                closed_phase(),
            ));
            let c = lemma_between_cues(lines, i + 1);
            c
        }
    }
}

/// Classify the input lines and assemble the normalized token list, one
/// output line per element.
pub fn assemble_tokens(lines: &Vec<String>) -> (tokens: Vec<String>)
    ensures
        views(tokens@) == normalized_tokens(views(lines@)),
{
    let ghost lvs = views(lines@);
    let mut out: Vec<String> = Vec::new();
    let mut ph = Phase::Headers { kind_seen: false, language_seen: false };
    let mut i: usize = 0;
    proof {
        assert(views(out@) + tokens_from(lvs, 0, init_phase()) =~~= normalized_tokens(lvs));
    }
    while i < lines.len()
        invariant
            lvs == views(lines@),
            i <= lines.len(),
            views(out@) + tokens_from(lvs, i as int, ph) == normalized_tokens(lvs),
        decreases lines.len() - i,
    {
        let line: &String = &lines[i];
        proof {
            assert(lvs.len() == lines@.len());
            assert(line@ == lvs[i as int]);
        }
        let ghost prev = out@;
        let ghost old_ph = ph;
        match ph {
            Phase::Headers { kind_seen, language_seen } => {
                let cue = parse_cue_timings(line.as_str());
                match cue {
                    Some(tok) => {
                        if !kind_seen {
                            out.push(String::from_str("Kind: captions"));
                        }
                        if !language_seen {
                            out.push(String::from_str("Language: en-GB"));
                        }
                        if !kind_seen || !language_seen {
                            out.push(String::new());
                        }
                        out.push(tok);
                        ph = Phase::Cue;
                        proof {
                            assert(views(out@) =~~= views(prev) + step_tokens(
                                lvs[i as int],
                                old_ph,
                            ));
                        }
                    },
                    None => {
                        let mut k2 = kind_seen;
                        let mut l2 = language_seen;
                        let hdr = parse_header_value(line.as_str());
                        match hdr {
                            Some(key) => {
                                if str_eq(key.as_str(), "Kind") {
                                    k2 = true;
                                }
                                if str_eq(key.as_str(), "Language") {
                                    l2 = true;
                                }
                            },
                            None => {},
                        }
                        assert(k2 == (kind_seen || is_kind_header(lvs[i as int])));
                        assert(l2 == (language_seen || is_lang_header(lvs[i as int])));
                        if !k2 && !l2 && !line.as_str().is_empty() {
                            out.push(line.clone());
                        }
                        ph = Phase::Headers { kind_seen: k2, language_seen: l2 };
                        proof {
                            assert(views(out@) =~~= views(prev) + step_tokens(
                                lvs[i as int],
                                old_ph,
                            ));
                        }
                    },
                }
            },
            Phase::Cue => {
                let mut sub = parse_cue_payload_text(line.as_str());
                if sub.len() == 0 {
                    out.push(String::new());
                    ph = Phase::Headers { kind_seen: true, language_seen: true };
                } else {
                    let ghost subv = sub@;
                    out.append(&mut sub);
                    proof {
                        lemma_views_concat(prev, subv);
                    }
                }
                proof {
                    assert(views(out@) =~~= views(prev) + step_tokens(lvs[i as int], old_ph));
                }
            },
        }
        proof {
            assert(ph == step_phase(lvs[i as int], old_ph));
            assert(tokens_from(lvs, i as int, old_ph) == step_tokens(lvs[i as int], old_ph)
                + tokens_from(lvs, i as int + 1, ph));
            assert(views(out@) + tokens_from(lvs, i as int + 1, ph) =~~= normalized_tokens(lvs));
        }
        i += 1;
    }
    let ghost prev = out@;
    match ph {
        Phase::Cue => {
            out.push(String::new());
            proof {
                lemma_views_after_push(prev, out@, Seq::<char>::empty());
                assert(views(out@) =~~= normalized_tokens(lvs));
            }
        },
        Phase::Headers { kind_seen: _, language_seen: _ } => {
            proof {
                assert(views(out@) =~~= normalized_tokens(lvs));
            }
        },
    }
    out
}

} // verus!
