//! Style resolution and line classification.
//!
//! A raw line of the stream may carry terminal escape sequences.  The
//! stripper below resolves the styling by removing them; the resolved
//! text is what a report row stores, and the classifier decides from
//! it whether the line opens a warning item, an error item, or a
//! summary section, or is a plain continuation line.
//!
//! The classifier's rule set: a resolved line starting with
//! `warning count` or `error count` is a summary title; one starting
//! with `error:` or `error[` is an error title; one starting with
//! `warning:` or `warning[` is a warning title; anything else is a
//! continuation line.

use crate::line::{Kind, LineType};
use vstd::prelude::*;

verus! {

/// State of the style stripper while it walks the characters of a
/// line.
#[derive(Clone, Copy, Debug, PartialEq, Eq, Structural)]
pub enum StripState {
    /// Ordinary text.
    Normal,
    /// An escape character was just read.
    AfterEsc,
    /// Inside a control sequence, waiting for its final character.
    InCsi,
}

/// The stripper's transition on one character.
pub open spec fn strip_next(st: StripState, c: char) -> StripState {
    match st {
        StripState::Normal => if c == '\u{1b}' {
            StripState::AfterEsc
        } else {
            StripState::Normal
        },
        StripState::AfterEsc => if c == '[' {
            StripState::InCsi
        } else {
            StripState::Normal
        },
        StripState::InCsi => if 64 <= c as u32 && c as u32 <= 126 {
            StripState::Normal
        } else {
            StripState::InCsi
        },
    }
}

/// What the stripper keeps of one character: the character itself in
/// ordinary text, nothing inside an escape sequence.
pub open spec fn strip_emits(st: StripState, c: char) -> Seq<char> {
    if st == StripState::Normal && c != '\u{1b}' {
        seq![c]
    } else {
        Seq::empty()
    }
}

/// The resolved remainder of `s`, entered in state `st`.
pub open spec fn strip_from(st: StripState, s: Seq<char>) -> Seq<char>
    decreases s.len(),
{
    if s.len() == 0 {
        Seq::empty()
    } else {
        strip_emits(st, s[0]) + strip_from(strip_next(st, s[0]), s.drop_first())
    }
}

/// The text of a line with its terminal escape sequences removed: the
/// style-resolved text.
pub open spec fn stripped(s: Seq<char>) -> Seq<char> {
    strip_from(StripState::Normal, s)
}

/// Relies on String::push: it appends the given character to the end
/// of the string.
#[verifier::external_body]
fn push_char(s: &mut String, c: char)
    ensures
        final(s)@ == old(s)@.push(c),
{
    s.push(c);
}

/// Resolve the styling of one line: remove terminal escape sequences
/// (the escape character, two-character escapes, and control sequences
/// up to and including their final character).
pub fn strip_style(line: &str) -> (out: String)
    ensures
        out@ == stripped(line@),
{
    let ghost all = line@;
    let n = line.unicode_len();
    let mut out = String::new();
    let mut st = StripState::Normal;
    let mut i: usize = 0;
    proof {
        assert(all.subrange(0, all.len() as int) =~= all);
        assert(out@ + strip_from(st, all) =~= strip_from(st, all));
    }
    while i < n
        invariant
            0 <= i <= all.len(),
            n == all.len(),
            all == line@,
            stripped(all) == out@ + strip_from(st, all.subrange(i as int, all.len() as int)),
        decreases all.len() - i,
    {
        let c = line.get_char(i);
        let ghost suf = all.subrange(i as int, all.len() as int);
        proof {
            assert(suf[0] == c);
            assert(suf.drop_first() =~= all.subrange(i as int + 1, all.len() as int));
        }
        let ghost old_out = out@;
        let ghost old_st = st;
        match st {
            StripState::Normal => {
                if c == '\u{1b}' {
                    st = StripState::AfterEsc;
                } else {
                    push_char(&mut out, c);
                }
            },
            StripState::AfterEsc => {
                if c == '[' {
                    st = StripState::InCsi;
                } else {
                    st = StripState::Normal;
                }
            },
            StripState::InCsi => {
                if 64 <= c as u32 && c as u32 <= 126 {
                    st = StripState::Normal;
                }
            },
        }
        proof {
            assert(st == strip_next(old_st, c));
            assert(out@ =~= old_out + strip_emits(old_st, c));
            assert(strip_from(old_st, suf) == strip_emits(old_st, c) + strip_from(
                st,
                all.subrange(i as int + 1, all.len() as int),
            ));
            assert(out@ + strip_from(st, all.subrange(i as int + 1, all.len() as int)) =~= old_out
                + strip_from(old_st, suf));
        }
        i += 1;
    }
    proof {
        assert(all.subrange(i as int, all.len() as int) =~= Seq::<char>::empty());
        assert(out@ + strip_from(st, all.subrange(i as int, all.len() as int)) =~= out@);
    }
    out
}

/// The characters of the word `warning`.
pub open spec fn warning_word() -> Seq<char> {
    "warning"@
}

/// The characters of the word `error`.
pub open spec fn error_word() -> Seq<char> {
    "error"@
}

/// The characters of ` count`.
pub open spec fn count_word() -> Seq<char> {
    " count"@
}

/// Whether `p` is a prefix of `s`.
pub open spec fn has_prefix(s: Seq<char>, p: Seq<char>) -> bool {
    p.len() <= s.len() && s.take(p.len() as int) == p
}

/// Whether `s` is a title line introduced by the word `w`: the word,
/// then a colon or an opening bracket.
pub open spec fn is_title_word(s: Seq<char>, w: Seq<char>) -> bool {
    s.len() >= w.len() + 1 && has_prefix(s, w) && (s[w.len() as int] == ':' || s[w.len() as int]
        == '[')
}

/// Classification of a line whose styling is already resolved.
pub open spec fn spec_classify_styled(s: Seq<char>) -> LineType {
    if has_prefix(s, warning_word() + count_word()) || has_prefix(s, error_word() + count_word()) {
        LineType::Title(Kind::Sum)
    } else if is_title_word(s, error_word()) {
        LineType::Title(Kind::Error)
    } else if is_title_word(s, warning_word()) {
        LineType::Title(Kind::Warning)
    } else {
        LineType::Continuation
    }
}

/// Classification of a raw line: resolve the styling, then classify.
pub open spec fn spec_classify(line: Seq<char>) -> LineType {
    spec_classify_styled(stripped(line))
}

/// Whether the characters of `p` stand at the front of `s`.
fn has_prefix_exec(s: &str, p: &str) -> (r: bool)
    ensures
        r == has_prefix(s@, p@),
{
    let pl = p.unicode_len();
    let sl = s.unicode_len();
    if pl > sl {
        return false;
    }
    let mut i: usize = 0;
    while i < pl
        invariant
            0 <= i <= pl,
            pl == p@.len(),
            sl == s@.len(),
            pl <= sl,
            forall|j: int| 0 <= j < i ==> s@[j] == p@[j],
        decreases pl - i,
    {
        if s.get_char(i) != p.get_char(i) {
            proof {
                assert(s@.take(p@.len() as int)[i as int] == s@[i as int]);
            }
            return false;
        }
        i += 1;
    }
    proof {
        assert(s@.take(p@.len() as int) =~= p@);
    }
    true
}

/// Classify a line whose styling is already resolved.
pub fn classify_styled(s: &str) -> (t: LineType)
    ensures
        t == spec_classify_styled(s@),
{
    proof {
        reveal_strlit("warning count");
        reveal_strlit("error count");
        reveal_strlit("warning");
        reveal_strlit("error");
        reveal_strlit(" count");
        assert(("warning count")@ =~= warning_word() + count_word());
        assert(("error count")@ =~= error_word() + count_word());
    }
    if has_prefix_exec(s, "warning count") || has_prefix_exec(s, "error count") {
        return LineType::Title(Kind::Sum);
    }
    let n = s.unicode_len();
    if n >= 6 && has_prefix_exec(s, "error") {
        let c = s.get_char(5);
        if c == ':' || c == '[' {
            return LineType::Title(Kind::Error);
        }
    }
    if n >= 8 && has_prefix_exec(s, "warning") {
        let c = s.get_char(7);
        if c == ':' || c == '[' {
            return LineType::Title(Kind::Warning);
        }
    }
    LineType::Continuation
}

/// Classify one raw line of the stream.
pub fn classify(line: &str) -> (t: LineType)
    ensures
        t == spec_classify(line@),
{
    let styled = strip_style(line);
    classify_styled(styled.as_str())
}

} // verus!
