//! Tokenizer for command lines following Unix shell conventions.
//!
//! A backslash escapes any following character; single quotes suppress all
//! interpretation until the closing single quote; inside double quotes a
//! backslash escapes only a double quote or a backslash, and stays literal
//! before any other character. An unterminated quote is closed implicitly at
//! the end of the input, and a trailing backslash contributes nothing.

use core::ops::Range;
use vstd::prelude::*;

use crate::chars::{
    byte_at, byte_len, byte_length, char_offsets, concat_texts, contains_char,
    lemma_byte_at_monotone, lemma_remove_separators_add, lemma_remove_separators_all,
    lemma_remove_separators_none, remove_separators, string_from_chars,
};

verus! {

/// The lexical mode the scanner occupies at one position of the input.
/// Exactly one mode is active at a time; the next mode is a pure function
/// of the current mode and the current character.
#[derive(Clone, Copy)]
pub enum ParsingState {
    Normal,
    Escaped,
    SingleQuoted,
    DoubleQuoted,
    DoubleQuotedEscaped,
}

/// One step short of the whole scan: starting at character index `i` of `cs`
/// in mode `state`, with `acc` the text resolved so far for the token under
/// construction, `start` the character index where that token began, and
/// `quoted` whether a quote pair has opened (and closed) within it, the
/// result of scanning on until a token is complete or the input ends.
///
/// A result `Some((start, end, text, next))` gives the token's character
/// index range `[start, end)`, its resolved text, and the character index
/// `next` at which scanning resumes. `None` means no token remains.
pub open spec fn scan(
    cs: Seq<char>,
    seps: Seq<char>,
    i: int,
    state: ParsingState,
    start: int,
    acc: Seq<char>,
    quoted: bool,
) -> Option<(int, int, Seq<char>, int)>
    decreases cs.len() - i,
{
    if i < 0 || i >= cs.len() {
        if acc.len() > 0 || quoted {
            Some((start, cs.len() as int, acc, cs.len() as int))
        } else {
            None
        }
    } else {
        let c = cs[i];
        match state {
            ParsingState::Normal => {
                if c == '\\' {
                    scan(cs, seps, i + 1, ParsingState::Escaped, start, acc, quoted)
                } else if c == '\'' {
                    scan(cs, seps, i + 1, ParsingState::SingleQuoted, start, acc, quoted)
                } else if c == '"' {
                    scan(cs, seps, i + 1, ParsingState::DoubleQuoted, start, acc, quoted)
                } else if seps.contains(c) {
                    if acc.len() > 0 || quoted {
                        Some((start, i, acc, i + 1))
                    } else {
                        scan(cs, seps, i + 1, ParsingState::Normal, i + 1, acc, quoted)
                    }
                } else {
                    scan(cs, seps, i + 1, ParsingState::Normal, start, acc.push(c), quoted)
                }
            },
            ParsingState::Escaped => scan(
                cs,
                seps,
                i + 1,
                ParsingState::Normal,
                start,
                acc.push(c),
                quoted,
            ),
            ParsingState::SingleQuoted => {
                if c == '\'' {
                    scan(cs, seps, i + 1, ParsingState::Normal, start, acc, true)
                } else {
                    scan(cs, seps, i + 1, ParsingState::SingleQuoted, start, acc.push(c), quoted)
                }
            },
            ParsingState::DoubleQuoted => {
                if c == '"' {
                    scan(cs, seps, i + 1, ParsingState::Normal, start, acc, true)
                } else if c == '\\' {
                    scan(cs, seps, i + 1, ParsingState::DoubleQuotedEscaped, start, acc, quoted)
                } else {
                    scan(cs, seps, i + 1, ParsingState::DoubleQuoted, start, acc.push(c), quoted)
                }
            },
            ParsingState::DoubleQuotedEscaped => {
                if c == '"' || c == '\\' {
                    scan(cs, seps, i + 1, ParsingState::DoubleQuoted, start, acc.push(c), quoted)
                } else {
                    scan(
                        cs,
                        seps,
                        i + 1,
                        ParsingState::DoubleQuoted,
                        start,
                        acc.push('\\').push(c),
                        quoted,
                    )
                }
            },
        }
    }
}

/// The next token of `cs` when scanning starts at character index `i` with
/// separator set `seps`: its character index range, resolved text, and the
/// index at which the following scan resumes; `None` when only separators
/// (or nothing) remain.
pub open spec fn spec_next(cs: Seq<char>, seps: Seq<char>, i: int) -> Option<
    (int, int, Seq<char>, int),
> {
    scan(cs, seps, i, ParsingState::Normal, i, Seq::<char>::empty(), false)
}

/// No character of `cs` takes part in quoting or escaping for this engine.
pub open spec fn plain(cs: Seq<char>) -> bool {
    forall|k: int| 0 <= k < cs.len() ==> cs[k] != '\\' && cs[k] != '\'' && cs[k] != '"'
}

/// Bounds on what a scan can return: the token's character range lies
/// between the start argument, the scan position and the end of the input,
/// and scanning resumes right after the token (past the separator that
/// ended it, or at the end of the input).
pub proof fn lemma_scan_bounds(
    cs: Seq<char>,
    seps: Seq<char>,
    i: int,
    state: ParsingState,
    start: int,
    acc: Seq<char>,
    quoted: bool,
)
    requires
        0 <= i <= cs.len(),
        0 <= start <= i,
        scan(cs, seps, i, state, start, acc, quoted) is Some,
    ensures
        ({
            let t = scan(cs, seps, i, state, start, acc, quoted)->Some_0;
            &&& start <= t.0 <= t.1 <= cs.len()
            &&& i <= t.1
            &&& t.3 == if t.1 < cs.len() {
                t.1 + 1
            } else {
                cs.len() as int
            }
        }),
    decreases cs.len() - i,
{
    if i < cs.len() {
        let c = cs[i];
        match state {
            ParsingState::Normal => {
                if c == '\\' {
                    lemma_scan_bounds(cs, seps, i + 1, ParsingState::Escaped, start, acc, quoted);
                } else if c == '\'' {
                    lemma_scan_bounds(
                        cs,
                        seps,
                        i + 1,
                        ParsingState::SingleQuoted,
                        start,
                        acc,
                        quoted,
                    );
                } else if c == '"' {
                    lemma_scan_bounds(
                        cs,
                        seps,
                        i + 1,
                        ParsingState::DoubleQuoted,
                        start,
                        acc,
                        quoted,
                    );
                } else if seps.contains(c) {
                    if !(acc.len() > 0 || quoted) {
                        lemma_scan_bounds(cs, seps, i + 1, ParsingState::Normal, i + 1, acc, quoted);
                    }
                } else {
                    lemma_scan_bounds(
                        cs,
                        seps,
                        i + 1,
                        ParsingState::Normal,
                        start,
                        acc.push(c),
                        quoted,
                    );
                }
            },
            ParsingState::Escaped => {
                lemma_scan_bounds(cs, seps, i + 1, ParsingState::Normal, start, acc.push(c), quoted);
            },
            ParsingState::SingleQuoted => {
                if c == '\'' {
                    lemma_scan_bounds(cs, seps, i + 1, ParsingState::Normal, start, acc, true);
                } else {
                    lemma_scan_bounds(
                        cs,
                        seps,
                        i + 1,
                        ParsingState::SingleQuoted,
                        start,
                        acc.push(c),
                        quoted,
                    );
                }
            },
            ParsingState::DoubleQuoted => {
                if c == '"' {
                    lemma_scan_bounds(cs, seps, i + 1, ParsingState::Normal, start, acc, true);
                } else if c == '\\' {
                    lemma_scan_bounds(
                        cs,
                        seps,
                        i + 1,
                        ParsingState::DoubleQuotedEscaped,
                        start,
                        acc,
                        quoted,
                    );
                } else {
                    lemma_scan_bounds(
                        cs,
                        seps,
                        i + 1,
                        ParsingState::DoubleQuoted,
                        start,
                        acc.push(c),
                        quoted,
                    );
                }
            },
            ParsingState::DoubleQuotedEscaped => {
                if c == '"' || c == '\\' {
                    lemma_scan_bounds(
                        cs,
                        seps,
                        i + 1,
                        ParsingState::DoubleQuoted,
                        start,
                        acc.push(c),
                        quoted,
                    );
                } else {
                    lemma_scan_bounds(
                        cs,
                        seps,
                        i + 1,
                        ParsingState::DoubleQuoted,
                        start,
                        acc.push('\\').push(c),
                        quoted,
                    );
                }
            },
        }
    }
}

/// How a token's start index relates to the scan's arguments: once any
/// resolved text has accumulated, a quote pair has closed, or the scanner
/// sits inside a quote or escape, the start is frozen; in any case it can
/// only be the start argument itself or an index past the current position.
pub proof fn lemma_scan_start(
    cs: Seq<char>,
    seps: Seq<char>,
    i: int,
    state: ParsingState,
    start: int,
    acc: Seq<char>,
    quoted: bool,
)
    requires
        0 <= i <= cs.len(),
        scan(cs, seps, i, state, start, acc, quoted) is Some,
    ensures
        ({
            let t = scan(cs, seps, i, state, start, acc, quoted)->Some_0;
            &&& (acc.len() > 0 || quoted || !(state is Normal)) ==> t.0 == start
            &&& (t.0 == start || t.0 > i)
        }),
    decreases cs.len() - i,
{
    if i < cs.len() {
        let c = cs[i];
        match state {
            ParsingState::Normal => {
                if c == '\\' {
                    lemma_scan_start(cs, seps, i + 1, ParsingState::Escaped, start, acc, quoted);
                } else if c == '\'' {
                    lemma_scan_start(cs, seps, i + 1, ParsingState::SingleQuoted, start, acc, quoted);
                } else if c == '"' {
                    lemma_scan_start(cs, seps, i + 1, ParsingState::DoubleQuoted, start, acc, quoted);
                } else if seps.contains(c) {
                    if !(acc.len() > 0 || quoted) {
                        lemma_scan_start(cs, seps, i + 1, ParsingState::Normal, i + 1, acc, quoted);
                    }
                } else {
                    lemma_scan_start(
                        cs,
                        seps,
                        i + 1,
                        ParsingState::Normal,
                        start,
                        acc.push(c),
                        quoted,
                    );
                }
            },
            ParsingState::Escaped => {
                lemma_scan_start(cs, seps, i + 1, ParsingState::Normal, start, acc.push(c), quoted);
            },
            ParsingState::SingleQuoted => {
                if c == '\'' {
                    lemma_scan_start(cs, seps, i + 1, ParsingState::Normal, start, acc, true);
                } else {
                    lemma_scan_start(
                        cs,
                        seps,
                        i + 1,
                        ParsingState::SingleQuoted,
                        start,
                        acc.push(c),
                        quoted,
                    );
                }
            },
            ParsingState::DoubleQuoted => {
                if c == '"' {
                    lemma_scan_start(cs, seps, i + 1, ParsingState::Normal, start, acc, true);
                } else if c == '\\' {
                    lemma_scan_start(
                        cs,
                        seps,
                        i + 1,
                        ParsingState::DoubleQuotedEscaped,
                        start,
                        acc,
                        quoted,
                    );
                } else {
                    lemma_scan_start(
                        cs,
                        seps,
                        i + 1,
                        ParsingState::DoubleQuoted,
                        start,
                        acc.push(c),
                        quoted,
                    );
                }
            },
            ParsingState::DoubleQuotedEscaped => {
                if c == '"' || c == '\\' {
                    lemma_scan_start(
                        cs,
                        seps,
                        i + 1,
                        ParsingState::DoubleQuoted,
                        start,
                        acc.push(c),
                        quoted,
                    );
                } else {
                    lemma_scan_start(
                        cs,
                        seps,
                        i + 1,
                        ParsingState::DoubleQuoted,
                        start,
                        acc.push('\\').push(c),
                        quoted,
                    );
                }
            },
        }
    }
}

/// A token does not depend on the separators skipped before it: scanning
/// restarted at the token's own start index produces the same token, and
/// every character between the original position and that start is a
/// separator.
pub proof fn lemma_next_restart(cs: Seq<char>, seps: Seq<char>, i: int)
    requires
        0 <= i <= cs.len(),
        spec_next(cs, seps, i) is Some,
    ensures
        ({
            let t = spec_next(cs, seps, i)->Some_0;
            &&& i <= t.0
            &&& spec_next(cs, seps, t.0) == spec_next(cs, seps, i)
            &&& forall|k: int| i <= k < t.0 ==> seps.contains(cs[k])
        }),
    decreases cs.len() - i,
{
    if i < cs.len() {
        let c = cs[i];
        if c == '\\' {
            lemma_scan_start(cs, seps, i + 1, ParsingState::Escaped, i, Seq::<char>::empty(), false);
        } else if c == '\'' {
            lemma_scan_start(
                cs,
                seps,
                i + 1,
                ParsingState::SingleQuoted,
                i,
                Seq::<char>::empty(),
                false,
            );
        } else if c == '"' {
            lemma_scan_start(
                cs,
                seps,
                i + 1,
                ParsingState::DoubleQuoted,
                i,
                Seq::<char>::empty(),
                false,
            );
        } else if seps.contains(c) {
            lemma_next_restart(cs, seps, i + 1);
        } else {
            lemma_scan_start(
                cs,
                seps,
                i + 1,
                ParsingState::Normal,
                i,
                Seq::<char>::empty().push(c),
                false,
            );
        }
    }
}

/// Scanning the span of a token again, from the position where that token
/// begins within it, with no separators configured, follows the same
/// transitions and resolves to the same text; it ends only at the span's
/// end, whatever start index the fresh scan carries.
proof fn lemma_scan_span(
    cs: Seq<char>,
    seps: Seq<char>,
    j: int,
    state: ParsingState,
    acc: Seq<char>,
    quoted: bool,
    s2: int,
    x: int,
)
    requires
        0 <= s2 <= j <= cs.len(),
        scan(cs, seps, j, state, s2, acc, quoted) is Some,
        scan(cs, seps, j, state, s2, acc, quoted)->Some_0.0 == s2,
    ensures
        ({
            let t = scan(cs, seps, j, state, s2, acc, quoted)->Some_0;
            scan(cs.subrange(s2, t.1), Seq::<char>::empty(), j - s2, state, x, acc, quoted)
                == Some((x, t.1 - s2, t.2, t.1 - s2))
        }),
    decreases cs.len() - j,
{
    lemma_scan_bounds(cs, seps, j, state, s2, acc, quoted);
    let t = scan(cs, seps, j, state, s2, acc, quoted)->Some_0;
    let e = t.1;
    let sub = cs.subrange(s2, e);
    if j == e {
        if j < cs.len() {
            let c = cs[j];
            match state {
                ParsingState::Normal => {
                    if c == '\\' {
                        lemma_scan_bounds(cs, seps, j + 1, ParsingState::Escaped, s2, acc, quoted);
                    } else if c == '\'' {
                        lemma_scan_bounds(
                            cs,
                            seps,
                            j + 1,
                            ParsingState::SingleQuoted,
                            s2,
                            acc,
                            quoted,
                        );
                    } else if c == '"' {
                        lemma_scan_bounds(
                            cs,
                            seps,
                            j + 1,
                            ParsingState::DoubleQuoted,
                            s2,
                            acc,
                            quoted,
                        );
                    } else if seps.contains(c) {
                        if !(acc.len() > 0 || quoted) {
                            lemma_scan_bounds(
                                cs,
                                seps,
                                j + 1,
                                ParsingState::Normal,
                                j + 1,
                                acc,
                                quoted,
                            );
                        }
                    } else {
                        lemma_scan_bounds(
                            cs,
                            seps,
                            j + 1,
                            ParsingState::Normal,
                            s2,
                            acc.push(c),
                            quoted,
                        );
                    }
                },
                ParsingState::Escaped => {
                    lemma_scan_bounds(
                        cs,
                        seps,
                        j + 1,
                        ParsingState::Normal,
                        s2,
                        acc.push(c),
                        quoted,
                    );
                },
                ParsingState::SingleQuoted => {
                    if c == '\'' {
                        lemma_scan_bounds(cs, seps, j + 1, ParsingState::Normal, s2, acc, true);
                    } else {
                        lemma_scan_bounds(
                            cs,
                            seps,
                            j + 1,
                            ParsingState::SingleQuoted,
                            s2,
                            acc.push(c),
                            quoted,
                        );
                    }
                },
                ParsingState::DoubleQuoted => {
                    if c == '"' {
                        lemma_scan_bounds(cs, seps, j + 1, ParsingState::Normal, s2, acc, true);
                    } else if c == '\\' {
                        lemma_scan_bounds(
                            cs,
                            seps,
                            j + 1,
                            ParsingState::DoubleQuotedEscaped,
                            s2,
                            acc,
                            quoted,
                        );
                    } else {
                        lemma_scan_bounds(
                            cs,
                            seps,
                            j + 1,
                            ParsingState::DoubleQuoted,
                            s2,
                            acc.push(c),
                            quoted,
                        );
                    }
                },
                ParsingState::DoubleQuotedEscaped => {
                    if c == '"' || c == '\\' {
                        lemma_scan_bounds(
                            cs,
                            seps,
                            j + 1,
                            ParsingState::DoubleQuoted,
                            s2,
                            acc.push(c),
                            quoted,
                        );
                    } else {
                        lemma_scan_bounds(
                            cs,
                            seps,
                            j + 1,
                            ParsingState::DoubleQuoted,
                            s2,
                            acc.push('\\').push(c),
                            quoted,
                        );
                    }
                },
            }
        }
    } else {
        let c = cs[j];
        assert(sub[j - s2] == c);
        match state {
            ParsingState::Normal => {
                if c == '\\' {
                    lemma_scan_span(cs, seps, j + 1, ParsingState::Escaped, acc, quoted, s2, x);
                } else if c == '\'' {
                    lemma_scan_span(cs, seps, j + 1, ParsingState::SingleQuoted, acc, quoted, s2, x);
                } else if c == '"' {
                    lemma_scan_span(cs, seps, j + 1, ParsingState::DoubleQuoted, acc, quoted, s2, x);
                } else if seps.contains(c) {
                    if acc.len() > 0 || quoted {
                    } else {
                        lemma_scan_start(cs, seps, j + 1, ParsingState::Normal, j + 1, acc, quoted);
                    }
                } else {
                    lemma_scan_span(
                        cs,
                        seps,
                        j + 1,
                        ParsingState::Normal,
                        acc.push(c),
                        quoted,
                        s2,
                        x,
                    );
                }
            },
            ParsingState::Escaped => {
                lemma_scan_span(cs, seps, j + 1, ParsingState::Normal, acc.push(c), quoted, s2, x);
            },
            ParsingState::SingleQuoted => {
                if c == '\'' {
                    lemma_scan_span(cs, seps, j + 1, ParsingState::Normal, acc, true, s2, x);
                } else {
                    lemma_scan_span(
                        cs,
                        seps,
                        j + 1,
                        ParsingState::SingleQuoted,
                        acc.push(c),
                        quoted,
                        s2,
                        x,
                    );
                }
            },
            ParsingState::DoubleQuoted => {
                if c == '"' {
                    lemma_scan_span(cs, seps, j + 1, ParsingState::Normal, acc, true, s2, x);
                } else if c == '\\' {
                    lemma_scan_span(
                        cs,
                        seps,
                        j + 1,
                        ParsingState::DoubleQuotedEscaped,
                        acc,
                        quoted,
                        s2,
                        x,
                    );
                } else {
                    lemma_scan_span(
                        cs,
                        seps,
                        j + 1,
                        ParsingState::DoubleQuoted,
                        acc.push(c),
                        quoted,
                        s2,
                        x,
                    );
                }
            },
            ParsingState::DoubleQuotedEscaped => {
                if c == '"' || c == '\\' {
                    lemma_scan_span(
                        cs,
                        seps,
                        j + 1,
                        ParsingState::DoubleQuoted,
                        acc.push(c),
                        quoted,
                        s2,
                        x,
                    );
                } else {
                    lemma_scan_span(
                        cs,
                        seps,
                        j + 1,
                        ParsingState::DoubleQuoted,
                        acc.push('\\').push(c),
                        quoted,
                        s2,
                        x,
                    );
                }
            },
        }
    }
}

/// Law: re-running the tokenizer on the raw span of one token, with no
/// separators configured, resolves to exactly that token's text again.
pub proof fn lemma_token_round_trip(cs: Seq<char>, seps: Seq<char>, i: int)
    requires
        0 <= i <= cs.len(),
        spec_next(cs, seps, i) is Some,
    ensures
        ({
            let t = spec_next(cs, seps, i)->Some_0;
            &&& 0 <= t.0 <= t.1 <= cs.len()
            &&& spec_next(cs.subrange(t.0, t.1), Seq::<char>::empty(), 0) == Some(
                (0int, t.1 - t.0, t.2, t.1 - t.0),
            )
        }),
{
    lemma_scan_bounds(cs, seps, i, ParsingState::Normal, i, Seq::<char>::empty(), false);
    lemma_next_restart(cs, seps, i);
    let t = spec_next(cs, seps, i)->Some_0;
    lemma_scan_span(cs, seps, t.0, ParsingState::Normal, Seq::<char>::empty(), false, t.0, 0);
}

/// Accumulation on plain input: with resolved text already begun (or a
/// quote pair closed), scanning plain input appends exactly the characters
/// up to the next separator, and the token ends there or at the input's end.
proof fn lemma_plain_accum(
    cs: Seq<char>,
    seps: Seq<char>,
    j: int,
    start: int,
    acc: Seq<char>,
    quoted: bool,
)
    requires
        0 <= start <= j <= cs.len(),
        plain(cs),
        acc.len() > 0 || quoted,
    ensures
        ({
            let r = scan(cs, seps, j, ParsingState::Normal, start, acc, quoted);
            &&& r is Some
            &&& ({
                let t = r->Some_0;
                &&& t.0 == start
                &&& j <= t.1 <= cs.len()
                &&& t.2 == acc + cs.subrange(j, t.1)
                &&& (forall|k: int| j <= k < t.1 ==> !seps.contains(cs[k]))
                &&& (t.1 < cs.len() ==> seps.contains(cs[t.1]) && t.3 == t.1 + 1)
                &&& (t.1 == cs.len() ==> t.3 == t.1)
            })
        }),
    decreases cs.len() - j,
{
    if j == cs.len() {
        assert(acc + cs.subrange(j, j) =~= acc);
    } else {
        let c = cs[j];
        if seps.contains(c) {
            assert(acc + cs.subrange(j, j) =~= acc);
        } else {
            lemma_plain_accum(cs, seps, j + 1, start, acc.push(c), quoted);
            let t = scan(cs, seps, j, ParsingState::Normal, start, acc, quoted)->Some_0;
            assert(acc.push(c) + cs.subrange(j + 1, t.1) =~= acc + cs.subrange(j, t.1));
        }
    }
}

/// Law: on input with no quoting or escaping characters, the tokens are the
/// separator-split substrings of the input. The next token's resolved text
/// is exactly the raw span that produced it; every character skipped before
/// it is a separator, no character within it is one, and the span ends at a
/// separator or at the end of the input. When no token comes back, only
/// separators remained.
pub proof fn lemma_plain_split(cs: Seq<char>, seps: Seq<char>, i: int)
    requires
        0 <= i <= cs.len(),
        plain(cs),
    ensures
        match spec_next(cs, seps, i) {
            Option::None => forall|k: int| i <= k < cs.len() ==> seps.contains(cs[k]),
            Option::Some(t) => {
                &&& i <= t.0 < t.1 <= cs.len()
                &&& t.2 == cs.subrange(t.0, t.1)
                &&& (forall|k: int| i <= k < t.0 ==> seps.contains(cs[k]))
                &&& (forall|k: int| t.0 <= k < t.1 ==> !seps.contains(cs[k]))
                &&& (t.1 < cs.len() ==> seps.contains(cs[t.1]) && t.3 == t.1 + 1)
                &&& (t.1 == cs.len() ==> t.3 == t.1)
            },
        },
    decreases cs.len() - i,
{
    if i < cs.len() {
        let c = cs[i];
        if seps.contains(c) {
            lemma_plain_split(cs, seps, i + 1);
        } else {
            lemma_plain_accum(cs, seps, i + 1, i, Seq::<char>::empty().push(c), false);
            let t = spec_next(cs, seps, i)->Some_0;
            assert(Seq::<char>::empty().push(c) + cs.subrange(i + 1, t.1) =~= cs.subrange(i, t.1));
        }
    }
}

/// All tokens of `cs` from character index `i` on, each as its character
/// index range and resolved text, in the order the scanner produces them.
pub open spec fn spec_tokens(cs: Seq<char>, seps: Seq<char>, i: int) -> Seq<(int, int, Seq<char>)>
    decreases cs.len() - i,
{
    match spec_next(cs, seps, i) {
        Option::None => Seq::<(int, int, Seq<char>)>::empty(),
        Option::Some(t) => if i < t.3 && t.3 <= cs.len() {
            seq![(t.0, t.1, t.2)] + spec_tokens(cs, seps, t.3)
        } else {
            seq![(t.0, t.1, t.2)]
        },
    }
}

/// Law: on input with no quoting or escaping characters, concatenating the
/// resolved texts of all tokens reconstructs exactly the input's
/// non-separator characters, in order.
pub proof fn lemma_plain_reconstruction(cs: Seq<char>, seps: Seq<char>, i: int)
    requires
        0 <= i <= cs.len(),
        plain(cs),
    ensures
        concat_texts(spec_tokens(cs, seps, i)) == remove_separators(
            cs.subrange(i, cs.len() as int),
            seps,
        ),
    decreases cs.len() - i,
{
    let rest = cs.subrange(i, cs.len() as int);
    lemma_plain_split(cs, seps, i);
    match spec_next(cs, seps, i) {
        Option::None => {
            lemma_remove_separators_none(rest, seps);
        },
        Option::Some(t) => {
            lemma_plain_reconstruction(cs, seps, t.3);
            let toks = spec_tokens(cs, seps, i);
            let tail = spec_tokens(cs, seps, t.3);
            assert(toks == seq![(t.0, t.1, t.2)] + tail);
            assert(toks[0] == (t.0, t.1, t.2));
            assert(toks.drop_first() =~= tail);
            let before = cs.subrange(i, t.0);
            let span = cs.subrange(t.0, t.1);
            let after = cs.subrange(t.3, cs.len() as int);
            lemma_remove_separators_none(before, seps);
            lemma_remove_separators_all(span, seps);
            if t.1 < cs.len() {
                let sep_char = cs.subrange(t.1, t.3);
                assert(rest =~= before + span + sep_char + after);
                lemma_remove_separators_add(before + span + sep_char, after, seps);
                lemma_remove_separators_add(before + span, sep_char, seps);
                lemma_remove_separators_add(before, span, seps);
                assert(forall|k: int| 0 <= k < sep_char.len() ==> seps.contains(sep_char[k]));
                lemma_remove_separators_none(sep_char, seps);
                assert(remove_separators(rest, seps) =~= t.2 + concat_texts(tail));
            } else {
                assert(rest =~= before + span);
                lemma_remove_separators_add(before, span, seps);
                assert(after.len() == 0);
                assert(remove_separators(rest, seps) =~= t.2 + concat_texts(tail));
            }
        },
    }
}

/// Law: token ranges are ordered and lie within the input. The token starts
/// at or after the scan position, ends no earlier than it starts, ends
/// within the input, and the following scan resumes past the whole token;
/// so the ranges of successive tokens are monotonically increasing and
/// non-overlapping, in character indices and in byte offsets alike.
pub proof fn lemma_token_ranges(cs: Seq<char>, seps: Seq<char>, i: int)
    requires
        0 <= i <= cs.len(),
        spec_next(cs, seps, i) is Some,
    ensures
        ({
            let t = spec_next(cs, seps, i)->Some_0;
            &&& i <= t.0 <= t.1 <= t.3 <= cs.len()
            &&& i < t.3
            &&& byte_at(cs, t.0) <= byte_at(cs, t.1) <= byte_len(cs)
        }),
{
    lemma_scan_bounds(cs, seps, i, ParsingState::Normal, i, Seq::<char>::empty(), false);
    let t = spec_next(cs, seps, i)->Some_0;
    lemma_byte_at_monotone(cs, t.0, t.1);
    lemma_byte_at_monotone(cs, t.1, cs.len() as int);
}

/// A tokenizer session over one command line.
///
/// Pulls one argument at a time via [`Parser::next`]; each argument comes
/// with the byte range of the raw input that produced it. The separator set
/// (a single space by default) may be changed between pulls.
pub struct Parser {
    state: ParsingState,
    chars: Vec<(usize, char)>,
    pos: usize,
    cmdline_len: usize,
    separators: Vec<char>,
}

impl Parser {
    /// The characters of the command line this session scans.
    pub closed spec fn input(self) -> Seq<char> {
        self.chars@.map_values(|p: (usize, char)| p.1)
    }

    /// The character index at which the next pull resumes scanning.
    pub closed spec fn pos(self) -> int {
        self.pos as int
    }

    /// The active separator characters.
    pub closed spec fn seps(self) -> Seq<char> {
        self.separators@
    }

    /// Internal consistency: the stored byte offsets are those of the
    /// input's characters, the stored total length is the input's byte
    /// length, and the scanner rests in the `Normal` mode whenever input
    /// remains to be consumed.
    pub closed spec fn wf(self) -> bool {
        &&& self.pos <= self.chars@.len()
        &&& self.cmdline_len == byte_len(self.input())
        &&& (forall|i: int|
            0 <= i < self.chars@.len() ==> (#[trigger] self.chars@[i]).0 == byte_at(
                self.input(),
                i,
            ))
        &&& (self.pos < self.chars@.len() ==> self.state is Normal)
    }

    /// Start a session over `cmdline`, positioned at its first character,
    /// with the separator set holding only a space.
    pub fn new(cmdline: &str) -> (p: Parser)
        ensures
            p.wf(),
            p.input() == cmdline@,
            p.pos() == 0,
            p.seps() == seq![' '],
    {
        let chars = char_offsets(cmdline);
        let cmdline_len = byte_length(cmdline);
        let mut separators: Vec<char> = Vec::new();
        separators.push(' ');
        let p = Parser { state: ParsingState::Normal, chars, pos: 0, cmdline_len, separators };
        proof {
            assert(p.input() =~= cmdline@);
            assert(p.seps() =~= seq![' ']);
        }
        p
    }

    /// Replace the separator set; takes effect on the next pull.
    pub fn set_separators(&mut self, separators: &[char])
        requires
            old(self).wf(),
        ensures
            final(self).wf(),
            final(self).input() == old(self).input(),
            final(self).pos() == old(self).pos(),
            final(self).seps() == separators@,
    {
        self.separators = vstd::slice::slice_to_vec(separators);
    }

    /// Pull the next argument: its byte range in the raw input and its
    /// resolved text, or `None` once the input is exhausted.
    pub fn next(&mut self) -> (r: Option<(Range<usize>, String)>)
        requires
            old(self).wf(),
        ensures
            final(self).wf(),
            final(self).input() == old(self).input(),
            final(self).seps() == old(self).seps(),
            match spec_next(old(self).input(), old(self).seps(), old(self).pos()) {
                Option::None => r is None && final(self).pos() == old(self).input().len(),
                Option::Some(tok) => {
                    &&& r is Some
                    &&& r->Some_0.0.start == byte_at(old(self).input(), tok.0)
                    &&& r->Some_0.0.end == byte_at(old(self).input(), tok.1)
                    &&& r->Some_0.1@ == tok.2
                    &&& final(self).pos() == tok.3
                },
            },
    {
        let ghost cs = self.input();
        let ghost seps0 = self.seps();
        let ghost i0 = self.pos as int;
        let n = self.chars.len();
        if self.pos >= n {
            return None;
        }
        let mut state = self.state;
        let mut acc: Vec<char> = Vec::new();
        let mut quoted = false;
        let mut start = self.pos;
        let mut pos = self.pos;
        while pos < n
            invariant
                *self == *old(self),
                old(self).wf(),
                n == self.chars@.len(),
                cs == self.input(),
                seps0 == self.seps(),
                i0 == old(self).pos as int,
                i0 <= pos,
                pos <= n,
                i0 <= start,
                start <= pos,
                (acc@.len() > 0 || quoted || !(state is Normal)) ==> start < pos,
                scan(cs, seps0, pos as int, state, start as int, acc@, quoted) == spec_next(
                    cs,
                    seps0,
                    i0,
                ),
            decreases n - pos,
        {
            let c = self.chars[pos].1;
            proof {
                assert(cs[pos as int] == c);
            }
            let ghost pre_state = state;
            let ghost pre_start = start;
            let ghost pre_acc = acc@;
            let ghost pre_quoted = quoted;
            match state {
                ParsingState::Normal => {
                    if c == '\\' {
                        state = ParsingState::Escaped;
                    } else if c == '\'' {
                        state = ParsingState::SingleQuoted;
                    } else if c == '"' {
                        state = ParsingState::DoubleQuoted;
                    } else if contains_char(&self.separators, c) {
                        if acc.len() > 0 || quoted {
                            let text = string_from_chars(&acc);
                            let start_byte = self.chars[start].0;
                            let end_byte = self.chars[pos].0;
                            self.pos = pos + 1;
                            self.state = ParsingState::Normal;
                            proof {
                                assert(spec_next(cs, seps0, i0) == Some(
                                    (start as int, pos as int, acc@, pos as int + 1),
                                ));
                            }
                            return Some((start_byte..end_byte, text));
                        } else {
                            start = pos + 1;
                        }
                    } else {
                        acc.push(c);
                    }
                },
                ParsingState::Escaped => {
                    acc.push(c);
                    state = ParsingState::Normal;
                },
                ParsingState::SingleQuoted => {
                    if c == '\'' {
                        quoted = true;
                        state = ParsingState::Normal;
                    } else {
                        acc.push(c);
                    }
                },
                ParsingState::DoubleQuoted => {
                    if c == '"' {
                        quoted = true;
                        state = ParsingState::Normal;
                    } else if c == '\\' {
                        state = ParsingState::DoubleQuotedEscaped;
                    } else {
                        acc.push(c);
                    }
                },
                ParsingState::DoubleQuotedEscaped => {
                    if c == '"' || c == '\\' {
                        acc.push(c);
                        state = ParsingState::DoubleQuoted;
                    } else {
                        acc.push('\\');
                        acc.push(c);
                        state = ParsingState::DoubleQuoted;
                    }
                },
            }
            pos = pos + 1;
            proof {
                assert(scan(cs, seps0, pos - 1, pre_state, pre_start as int, pre_acc, pre_quoted)
                    == scan(cs, seps0, pos as int, state, start as int, acc@, quoted));
            }
        }
        if acc.len() > 0 || quoted {
            let text = string_from_chars(&acc);
            let start_byte = self.chars[start].0;
            let end_byte = self.cmdline_len;
            self.pos = n;
            self.state = state;
            proof {
                assert(cs.take(n as int) =~= cs);
                assert(spec_next(cs, seps0, i0) == Some(
                    (start as int, n as int, acc@, n as int),
                ));
            }
            return Some((start_byte..end_byte, text));
        }
        self.pos = n;
        self.state = state;
        None
    }
}

} // verus!
