//! The mathematical model of the scan: the whitespace classification, the
//! delimiter-seeking primitives, and the step function [`spec_step`] that
//! maps a scanner state to the next event, the end of the stream, or an
//! error.  Both executable scanners are specified against this one model.

use vstd::prelude::*;

use crate::event::{ErrorV, EventV};

verus! {

/// The recognized whitespace characters: ASCII space, tab, newline and
/// carriage return; the Unicode space separators NBSP, EN SPACE, EM SPACE,
/// LINE SEPARATOR, PARAGRAPH SEPARATOR, NARROW NO-BREAK SPACE and
/// IDEOGRAPHIC SPACE; and the RIGHT-TO-LEFT MARK, a deliberate extension
/// that eases scanning of right-to-left-language markup.  The same
/// classification is used both for skipping and for trimming.
pub open spec fn is_space(c: char) -> bool {
    ||| c == ' '
    ||| c == '\t'
    ||| c == '\n'
    ||| c == '\r'
    ||| c == '\u{00A0}'
    ||| c == '\u{2002}'
    ||| c == '\u{2003}'
    ||| c == '\u{2028}'
    ||| c == '\u{2029}'
    ||| c == '\u{202F}'
    ||| c == '\u{3000}'
    ||| c == '\u{200F}'
}

/// The first index at or after `i` whose character satisfies `stop`, or the
/// length of `s` when no such character follows.
pub open spec fn seek(s: Seq<char>, i: int, stop: spec_fn(char) -> bool) -> int
    decreases s.len() - i,
    when 0 <= i <= s.len()
{
    if i == s.len() {
        i
    } else if stop(s[i]) {
        i
    } else {
        seek(s, i + 1, stop)
    }
}

pub proof fn lemma_seek(s: Seq<char>, i: int, stop: spec_fn(char) -> bool)
    requires
        0 <= i <= s.len(),
    ensures
        i <= seek(s, i, stop) <= s.len(),
        forall|k: int| i <= k < seek(s, i, stop) ==> !stop(#[trigger] s[k]),
        seek(s, i, stop) < s.len() ==> stop(s[seek(s, i, stop)]),
    decreases s.len() - i,
{
    if i < s.len() && !stop(s[i]) {
        lemma_seek(s, i + 1, stop);
    }
}

/// Stops at the first non-whitespace character.
pub open spec fn non_space() -> spec_fn(char) -> bool {
    |c: char| !is_space(c)
}

/// Ends an element name: whitespace, `>` or `/`.
pub open spec fn name_stop() -> spec_fn(char) -> bool {
    |c: char| is_space(c) || c == '>' || c == '/'
}

/// Ends a closing-tag name: whitespace or `>`.
pub open spec fn close_stop() -> spec_fn(char) -> bool {
    |c: char| is_space(c) || c == '>'
}

/// Ends an attribute name: whitespace, `=`, `>` or `/`.
pub open spec fn attr_stop() -> spec_fn(char) -> bool {
    |c: char| is_space(c) || c == '=' || c == '>' || c == '/'
}

/// Ends a text run: a newline or the opening of a tag.
pub open spec fn text_stop() -> spec_fn(char) -> bool {
    |c: char| c == '\n' || c == '<'
}

pub open spec fn skip_ws(s: Seq<char>, i: int) -> int {
    seek(s, i, non_space())
}

pub open spec fn name_end(s: Seq<char>, i: int) -> int {
    seek(s, i, name_stop())
}

pub open spec fn close_name_end(s: Seq<char>, i: int) -> int {
    seek(s, i, close_stop())
}

pub open spec fn attr_name_end(s: Seq<char>, i: int) -> int {
    seek(s, i, attr_stop())
}

pub open spec fn text_end(s: Seq<char>, i: int) -> int {
    seek(s, i, text_stop())
}

/// The end of the run `i..j` once trailing whitespace is removed.
pub open spec fn rtrim_end(s: Seq<char>, i: int, j: int) -> int
    decreases j - i,
    when i <= j
{
    if j > i && is_space(s[j - 1]) {
        rtrim_end(s, i, j - 1)
    } else {
        j
    }
}

pub proof fn lemma_rtrim(s: Seq<char>, i: int, j: int)
    requires
        0 <= i <= j <= s.len(),
    ensures
        i <= rtrim_end(s, i, j) <= j,
        forall|k: int| rtrim_end(s, i, j) <= k < j ==> is_space(#[trigger] s[k]),
        rtrim_end(s, i, j) > i ==> !is_space(s[rtrim_end(s, i, j) - 1]),
    decreases j - i,
{
    if j > i && is_space(s[j - 1]) {
        lemma_rtrim(s, i, j - 1);
    }
}

/// True when the four characters of a comment opening, `<!--`, stand at `i`.
pub open spec fn comment_marker(s: Seq<char>, i: int) -> bool {
    &&& i + 4 <= s.len()
    &&& s[i] == '<'
    &&& s[i + 1] == '!'
    &&& s[i + 2] == '-'
    &&& s[i + 3] == '-'
}

/// The first index at or after `i` where the terminator `-->` begins, or
/// `None` when the comment extends to the end of the input.
pub open spec fn comment_close(s: Seq<char>, i: int) -> Option<int>
    decreases s.len() - i,
    when 0 <= i
{
    if i + 3 > s.len() {
        None
    } else if s[i] == '-' && s[i + 1] == '-' && s[i + 2] == '>' {
        Some(i)
    } else {
        comment_close(s, i + 1)
    }
}

pub proof fn lemma_comment_close(s: Seq<char>, i: int)
    requires
        0 <= i,
    ensures
        match comment_close(s, i) {
            Some(j) => {
                &&& i <= j
                &&& j + 3 <= s.len()
                &&& s[j] == '-' && s[j + 1] == '-' && s[j + 2] == '>'
            },
            None => true,
        },
    decreases s.len() - i,
{
    if i + 3 <= s.len() && !(s[i] == '-' && s[i + 1] == '-' && s[i + 2] == '>') {
        lemma_comment_close(s, i + 1);
    }
}

/// The index of the unescaped closing quote of an attribute value whose body
/// starts at `i`, or `None` when the input ends first.  A backslash consumes
/// itself and exactly one following character without interpreting it.
pub open spec fn value_end(s: Seq<char>, i: int) -> Option<int>
    decreases s.len() - i,
    when 0 <= i
{
    if i >= s.len() {
        None
    } else if s[i] == '"' {
        Some(i)
    } else if s[i] == '\\' {
        if i + 2 <= s.len() {
            value_end(s, i + 2)
        } else {
            None
        }
    } else {
        value_end(s, i + 1)
    }
}

pub proof fn lemma_value_end(s: Seq<char>, i: int)
    requires
        0 <= i,
    ensures
        match value_end(s, i) {
            Some(j) => i <= j < s.len() && s[j] == '"',
            None => true,
        },
    decreases s.len() - i,
{
    if i < s.len() && s[i] != '"' {
        if s[i] == '\\' {
            if i + 2 <= s.len() {
                lemma_value_end(s, i + 2);
            }
        } else {
            lemma_value_end(s, i + 1);
        }
    }
}

/// The two scanning levels, and the terminal state a scanner rests in
/// once the stream has ended.
#[derive(Debug, Clone, Copy, PartialEq, Eq, Structural)]
pub enum ScanState {
    Document,
    Element,
    Finished,
}

/// What one call to "produce the next event" yields: an event together with
/// the position and level the scan continues from, the end of the stream, or
/// a fatal error.
pub enum Step {
    Event { ev: EventV, pos: int, state: ScanState },
    End,
    Fail { err: ErrorV },
}

/// The scan's step function: from the character sequence, the cursor and the
/// level, the next outcome.  Whitespace, comments in the eliding
/// configuration, and the `>` that closes an opening tag are consumed
/// without an event, so the function recurses past them.
pub open spec fn spec_step(s: Seq<char>, pos: int, state: ScanState, emit: bool) -> Step
    decreases s.len() - pos, 2int,
    when 0 <= pos <= s.len()
{
    if state == ScanState::Finished {
        Step::End
    } else if pos == s.len() {
        if state == ScanState::Document {
            Step::End
        } else {
            Step::Fail { err: ErrorV::UnexpectedEndOfInput }
        }
    } else if is_space(s[pos]) {
        spec_step(s, pos + 1, state, emit)
    } else if state == ScanState::Document {
        spec_step_document(s, pos, emit)
    } else {
        spec_step_element(s, pos, emit)
    }
}

/// The document level at a non-whitespace character.
pub open spec fn spec_step_document(s: Seq<char>, pos: int, emit: bool) -> Step
    decreases s.len() - pos, 1int,
    when 0 <= pos < s.len() && !is_space(s[pos])
{
    if s[pos] == '<' {
        if pos + 1 < s.len() && s[pos + 1] == '/' {
            // Close tag: a permissive name, optional whitespace, `>`.
            let ne = close_name_end(s, pos + 2);
            let g = skip_ws(s, ne);
            if g == s.len() {
                Step::Fail { err: ErrorV::UnexpectedEndOfInput }
            } else if s[g] != '>' {
                Step::Fail { err: ErrorV::UnexpectedChar(s[g], g) }
            } else {
                Step::Event {
                    ev: EventV::Pop { name: Some(s.subrange(pos + 2, ne)) },
                    pos: g + 1,
                    state: ScanState::Document,
                }
            }
        } else if comment_marker(s, pos) {
            // Comment: skip through `-->`, or end the scan silently.
            match comment_close(s, pos + 4) {
                Some(j) => if emit {
                    Step::Event {
                        ev: EventV::Comment { text: s.subrange(pos + 4, j) },
                        pos: j + 3,
                        state: ScanState::Document,
                    }
                } else {
                    proof {
                        lemma_comment_close(s, pos + 4);
                    }
                    spec_step(s, j + 3, ScanState::Document, emit)
                },
                None => Step::End,
            }
        } else {
            // Open tag: the name runs to whitespace, `>` or `/`.
            let ne = name_end(s, pos + 1);
            if ne == pos + 1 {
                Step::Fail { err: ErrorV::MissingElementName }
            } else {
                Step::Event {
                    ev: EventV::Push { name: s.subrange(pos + 1, ne) },
                    pos: ne,
                    state: ScanState::Element,
                }
            }
        }
    } else {
        // Text run: up to a newline or `<`, trailing whitespace
        // trimmed.  The head character is not whitespace, so the run is
        // never empty.
        let te = text_end(s, pos);
        let tr = rtrim_end(s, pos, te);
        Step::Event {
            ev: EventV::Text { text: s.subrange(pos, tr) },
            pos: te,
            state: ScanState::Document,
        }
    }
}

/// The element level at a non-whitespace character.
pub open spec fn spec_step_element(s: Seq<char>, pos: int, emit: bool) -> Step
    decreases s.len() - pos, 1int,
    when 0 <= pos < s.len() && !is_space(s[pos])
{
    if s[pos] == '<' {
        if comment_marker(s, pos) {
            match comment_close(s, pos + 4) {
                Some(j) => if emit {
                    Step::Event {
                        ev: EventV::Comment { text: s.subrange(pos + 4, j) },
                        pos: j + 3,
                        state: ScanState::Element,
                    }
                } else {
                    proof {
                        lemma_comment_close(s, pos + 4);
                    }
                    spec_step(s, j + 3, ScanState::Element, emit)
                },
                None => Step::End,
            }
        } else {
            // Only a comment may open with `<` inside a tag: report the
            // first character that deviates from `<!--`, or the end of the
            // input if it cuts the marker short.
            if pos + 1 == s.len() {
                Step::Fail { err: ErrorV::UnexpectedEndOfInput }
            } else if s[pos + 1] != '!' {
                Step::Fail { err: ErrorV::UnexpectedChar(s[pos + 1], pos + 1) }
            } else if pos + 2 == s.len() {
                Step::Fail { err: ErrorV::UnexpectedEndOfInput }
            } else if s[pos + 2] != '-' {
                Step::Fail { err: ErrorV::UnexpectedChar(s[pos + 2], pos + 2) }
            } else if pos + 3 == s.len() {
                Step::Fail { err: ErrorV::UnexpectedEndOfInput }
            } else {
                Step::Fail { err: ErrorV::UnexpectedChar(s[pos + 3], pos + 3) }
            }
        }
    } else if s[pos] == '>' {
        // `>` closes the opening tag and emits nothing itself; the document
        // level produces the next event.
        spec_step(s, pos + 1, ScanState::Document, emit)
    } else if s[pos] == '/' {
        if pos + 1 == s.len() {
            Step::Fail { err: ErrorV::UnexpectedEndOfInput }
        } else if s[pos + 1] == '>' {
            Step::Event {
                ev: EventV::Pop { name: None },
                pos: pos + 2,
                state: ScanState::Document,
            }
        } else {
            Step::Fail { err: ErrorV::UnexpectedChar(s[pos + 1], pos + 1) }
        }
    } else if s[pos] == '=' {
        Step::Fail { err: ErrorV::MissingAttributeName }
    } else {
        // Attribute.  The head character is none of the delimiters,
        // so the name is never empty.
        let ae = attr_name_end(s, pos);
        let g = skip_ws(s, ae);
        if g == s.len() || s[g] != '=' {
            // A presence attribute; the whitespace after the name is left
            // for the next step to consume.
            Step::Event {
                ev: EventV::Attr { name: s.subrange(pos, ae), value: None },
                pos: ae,
                state: ScanState::Element,
            }
        } else {
            let q = skip_ws(s, g + 1);
            if q == s.len() {
                Step::Fail { err: ErrorV::UnexpectedEndOfInput }
            } else if s[q] != '"' {
                Step::Fail { err: ErrorV::UnexpectedChar(s[q], q) }
            } else {
                match value_end(s, q + 1) {
                    None => Step::Fail { err: ErrorV::UnterminatedAttributeValue },
                    Some(v) => Step::Event {
                        ev: EventV::Attr {
                            name: s.subrange(pos, ae),
                            value: Some(s.subrange(q + 1, v)),
                        },
                        pos: v + 1,
                        state: ScanState::Element,
                    },
                }
            }
        }
    }
}

/// The claim of the progress lemmas, as one predicate over [`spec_step`].
pub open spec fn step_progress_ok(s: Seq<char>, pos: int, state: ScanState, emit: bool) -> bool {
    match spec_step(s, pos, state, emit) {
        Step::Event { ev, pos: p2, state: m2 } => pos < p2 <= s.len() && m2
            != ScanState::Finished,
        _ => true,
    }
}

/// Every produced event moves the cursor strictly forward and stays inside
/// the input, and the scan never continues in the terminal state.
pub proof fn lemma_step_progress(s: Seq<char>, pos: int, state: ScanState, emit: bool)
    requires
        0 <= pos <= s.len(),
    ensures
        step_progress_ok(s, pos, state, emit),
    decreases s.len() - pos, 2int,
{
    if state == ScanState::Finished || pos == s.len() {
    } else if is_space(s[pos]) {
        lemma_step_progress(s, pos + 1, state, emit);
        assert(spec_step(s, pos, state, emit) == spec_step(s, pos + 1, state, emit));
    } else if state == ScanState::Document {
        lemma_document_progress(s, pos, emit);
        assert(spec_step(s, pos, state, emit) == spec_step_document(s, pos, emit));
    } else {
        lemma_element_progress(s, pos, emit);
        assert(spec_step(s, pos, state, emit) == spec_step_element(s, pos, emit));
    }
}

proof fn lemma_document_progress(s: Seq<char>, pos: int, emit: bool)
    requires
        0 <= pos < s.len(),
        !is_space(s[pos]),
    ensures
        match spec_step_document(s, pos, emit) {
            Step::Event { ev, pos: p2, state: m2 } => pos < p2 <= s.len() && m2
                != ScanState::Finished,
            _ => true,
        },
    decreases s.len() - pos, 1int,
{
    if s[pos] == '<' {
        if pos + 1 < s.len() && s[pos + 1] == '/' {
            lemma_seek(s, pos + 2, close_stop());
            lemma_seek(s, close_name_end(s, pos + 2), non_space());
        } else if comment_marker(s, pos) {
            lemma_comment_close(s, pos + 4);
            if comment_close(s, pos + 4) is Some && !emit {
                let j = comment_close(s, pos + 4)->Some_0;
                lemma_step_progress(s, j + 3, ScanState::Document, emit);
            }
        } else {
            lemma_seek(s, pos + 1, name_stop());
        }
    } else {
        lemma_seek(s, pos, text_stop());
        lemma_rtrim(s, pos, text_end(s, pos));
        assert(!(text_stop()(s[pos])));
    }
}

proof fn lemma_element_progress(s: Seq<char>, pos: int, emit: bool)
    requires
        0 <= pos < s.len(),
        !is_space(s[pos]),
    ensures
        match spec_step_element(s, pos, emit) {
            Step::Event { ev, pos: p2, state: m2 } => pos < p2 <= s.len() && m2
                != ScanState::Finished,
            _ => true,
        },
    decreases s.len() - pos, 1int,
{
    if s[pos] == '<' {
        if comment_marker(s, pos) {
            lemma_comment_close(s, pos + 4);
            if comment_close(s, pos + 4) is Some && !emit {
                let j = comment_close(s, pos + 4)->Some_0;
                lemma_step_progress(s, j + 3, ScanState::Element, emit);
            }
        }
    } else if s[pos] == '>' {
        lemma_step_progress(s, pos + 1, ScanState::Document, emit);
    } else if s[pos] == '/' || s[pos] == '=' {
    } else {
        lemma_seek(s, pos, attr_stop());
        let ae = attr_name_end(s, pos);
        assert(!(attr_stop()(s[pos])));
        lemma_seek(s, ae, non_space());
        let g = skip_ws(s, ae);
        if !(g == s.len() || s[g] != '=') {
            lemma_seek(s, g + 1, non_space());
            let q = skip_ws(s, g + 1);
            lemma_value_end(s, q + 1);
        }
    }
}

} // verus!
