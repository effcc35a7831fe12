//! The stream-level guarantees of the scanner: a grammar of well-formed
//! nested documents, the proof that scanning such a document yields as many
//! element closes as opens with the nesting depth never dropping below
//! zero, and the proof that every emitted slice is a contiguous piece of
//! the input and is valid UTF-8 on its own.

use vstd::prelude::*;
use vstd::utf8::{encode_utf8, valid_utf8};

use crate::event::EventV;
use crate::model::{
    attr_name_end, attr_stop, close_name_end, close_stop, comment_close, comment_marker, is_space,
    lemma_comment_close, lemma_rtrim, lemma_seek, lemma_step_progress, lemma_value_end, name_end,
    name_stop, non_space, rtrim_end, skip_ws, spec_step, spec_step_document, spec_step_element,
    text_end, text_stop, value_end, ScanState, Step,
};

verus! {

/// How one event changes the nesting depth.
pub open spec fn delta(ev: EventV) -> int {
    match ev {
        EventV::Push { .. } => 1,
        EventV::Pop { .. } => -1,
        _ => 0,
    }
}

pub open spec fn is_push(ev: EventV) -> bool {
    ev matches EventV::Push { .. }
}

pub open spec fn is_pop(ev: EventV) -> bool {
    ev matches EventV::Pop { .. }
}

/// True when the scan from the given state runs to the end of the stream
/// without an error, and a depth counter started at `d` never drops below
/// zero along the produced events.
pub open spec fn trace_ok(s: Seq<char>, pos: int, state: ScanState, emit: bool, d: int) -> bool
    decreases s.len() - pos,
    when 0 <= pos <= s.len()
{
    d >= 0 && match spec_step(s, pos, state, emit) {
        Step::End => true,
        Step::Fail { .. } => false,
        Step::Event { ev, pos: p2, state: m2 } => {
            proof {
                lemma_step_progress(s, pos, state, emit);
            }
            trace_ok(s, p2, m2, emit, d + delta(ev))
        },
    }
}

/// The value of a depth counter started at `d` once the scan from the
/// given state has ended, the counter raised on each element open and
/// lowered on each close.
pub open spec fn final_depth(s: Seq<char>, pos: int, state: ScanState, emit: bool, d: int) -> int
    decreases s.len() - pos,
    when 0 <= pos <= s.len()
{
    match spec_step(s, pos, state, emit) {
        Step::End => d,
        Step::Fail { .. } => d,
        Step::Event { ev, pos: p2, state: m2 } => {
            proof {
                lemma_step_progress(s, pos, state, emit);
            }
            final_depth(s, p2, m2, emit, d + delta(ev))
        },
    }
}

/// How many element opens the scan from the given state produces.
pub open spec fn push_count(s: Seq<char>, pos: int, state: ScanState, emit: bool) -> int
    decreases s.len() - pos,
    when 0 <= pos <= s.len()
{
    match spec_step(s, pos, state, emit) {
        Step::End => 0,
        Step::Fail { .. } => 0,
        Step::Event { ev, pos: p2, state: m2 } => {
            proof {
                lemma_step_progress(s, pos, state, emit);
            }
            (if is_push(ev) {
                1int
            } else {
                0int
            }) + push_count(s, p2, m2, emit)
        },
    }
}

/// How many element closes the scan from the given state produces.
pub open spec fn pop_count(s: Seq<char>, pos: int, state: ScanState, emit: bool) -> int
    decreases s.len() - pos,
    when 0 <= pos <= s.len()
{
    match spec_step(s, pos, state, emit) {
        Step::End => 0,
        Step::Fail { .. } => 0,
        Step::Event { ev, pos: p2, state: m2 } => {
            proof {
                lemma_step_progress(s, pos, state, emit);
            }
            (if is_pop(ev) {
                1int
            } else {
                0int
            }) + pop_count(s, p2, m2, emit)
        },
    }
}

/// The final depth is the starting depth plus the opens minus the closes.
pub proof fn lemma_depth_counts(s: Seq<char>, pos: int, state: ScanState, emit: bool, d: int)
    requires
        0 <= pos <= s.len(),
    ensures
        final_depth(s, pos, state, emit, d) == d + push_count(s, pos, state, emit) - pop_count(
            s,
            pos,
            state,
            emit,
        ),
    decreases s.len() - pos,
{
    lemma_step_progress(s, pos, state, emit);
    match spec_step(s, pos, state, emit) {
        Step::Event { ev, pos: p2, state: m2 } => {
            lemma_depth_counts(s, p2, m2, emit, d + delta(ev));
        },
        _ => {},
    }
}

/// `t` is one contiguous piece of `s`.
pub open spec fn within(s: Seq<char>, t: Seq<char>) -> bool {
    exists|a: int, b: int| 0 <= a <= b <= s.len() && t == s.subrange(a, b)
}

/// Every payload the event borrows is one contiguous piece of `s`.
pub open spec fn event_within(s: Seq<char>, ev: EventV) -> bool {
    match ev {
        EventV::Push { name } => within(s, name),
        EventV::Pop { name } => match name {
            Some(nm) => within(s, nm),
            None => true,
        },
        EventV::Attr { name, value } => within(s, name) && match value {
            Some(v) => within(s, v),
            None => true,
        },
        EventV::Text { text } => within(s, text),
        EventV::Comment { text } => within(s, text),
    }
}

/// Every event the scan produces carries only contiguous pieces of the
/// input: slice boundaries never split the input anywhere but between
/// whole characters.
pub proof fn lemma_step_slices(s: Seq<char>, pos: int, state: ScanState, emit: bool)
    requires
        0 <= pos <= s.len(),
    ensures
        match spec_step(s, pos, state, emit) {
            Step::Event { ev, .. } => event_within(s, ev),
            _ => true,
        },
    decreases s.len() - pos,
{
    if state == ScanState::Finished || pos == s.len() {
    } else if is_space(s[pos]) {
        lemma_step_slices(s, pos + 1, state, emit);
        assert(spec_step(s, pos, state, emit) == spec_step(s, pos + 1, state, emit));
    } else if state == ScanState::Document {
        lemma_document_slices(s, pos, emit);
        assert(spec_step(s, pos, state, emit) == spec_step_document(s, pos, emit));
    } else {
        lemma_element_slices(s, pos, emit);
        assert(spec_step(s, pos, state, emit) == spec_step_element(s, pos, emit));
    }
}

proof fn lemma_document_slices(s: Seq<char>, pos: int, emit: bool)
    requires
        0 <= pos < s.len(),
        !is_space(s[pos]),
    ensures
        match spec_step_document(s, pos, emit) {
            Step::Event { ev, .. } => event_within(s, ev),
            _ => true,
        },
    decreases s.len() - pos, 1int,
{
    if s[pos] == '<' {
        if pos + 1 < s.len() && s[pos + 1] == '/' {
            lemma_seek(s, pos + 2, close_stop());
            let ne = close_name_end(s, pos + 2);
            lemma_seek(s, ne, non_space());
            assert(within(s, s.subrange(pos + 2, ne)));
        } else if comment_marker(s, pos) {
            lemma_comment_close(s, pos + 4);
            if comment_close(s, pos + 4) is Some {
                let j = comment_close(s, pos + 4)->Some_0;
                if emit {
                    assert(within(s, s.subrange(pos + 4, j)));
                } else {
                    lemma_step_slices(s, j + 3, ScanState::Document, emit);
                }
            }
        } else {
            lemma_seek(s, pos + 1, name_stop());
            let ne = name_end(s, pos + 1);
            if ne != pos + 1 {
                assert(within(s, s.subrange(pos + 1, ne)));
            }
        }
    } else {
        lemma_seek(s, pos, text_stop());
        lemma_rtrim(s, pos, text_end(s, pos));
        let tr = rtrim_end(s, pos, text_end(s, pos));
        assert(within(s, s.subrange(pos, tr)));
    }
}

proof fn lemma_element_slices(s: Seq<char>, pos: int, emit: bool)
    requires
        0 <= pos < s.len(),
        !is_space(s[pos]),
    ensures
        match spec_step_element(s, pos, emit) {
            Step::Event { ev, .. } => event_within(s, ev),
            _ => true,
        },
    decreases s.len() - pos, 1int,
{
    if s[pos] == '<' {
        if comment_marker(s, pos) {
            lemma_comment_close(s, pos + 4);
            if comment_close(s, pos + 4) is Some {
                let j = comment_close(s, pos + 4)->Some_0;
                if emit {
                    assert(within(s, s.subrange(pos + 4, j)));
                } else {
                    lemma_step_slices(s, j + 3, ScanState::Element, emit);
                }
            }
        }
    } else if s[pos] == '>' {
        lemma_step_slices(s, pos + 1, ScanState::Document, emit);
    } else if s[pos] == '/' || s[pos] == '=' {
    } else {
        lemma_seek(s, pos, attr_stop());
        let ae = attr_name_end(s, pos);
        lemma_seek(s, ae, non_space());
        let g = skip_ws(s, ae);
        assert(within(s, s.subrange(pos, ae)));
        if !(g == s.len() || s[g] != '=') {
            lemma_seek(s, g + 1, non_space());
            let q = skip_ws(s, g + 1);
            lemma_value_end(s, q + 1);
            if value_end(s, q + 1) is Some {
                let v = value_end(s, q + 1)->Some_0;
                assert(within(s, s.subrange(q + 1, v)));
            }
        }
    }
}

/// Any piece of the input, encoded back to bytes, is valid UTF-8 on its
/// own: a slice of a scanned document always decodes.
pub proof fn lemma_slice_valid_utf8(t: Seq<char>)
    ensures
        valid_utf8(encode_utf8(t)),
{
    vstd::utf8::encode_utf8_valid_utf8(t);
}

// ------------------------------------------------------------------
// The grammar of well-formed nested documents, written as
// deterministic end-position functions.  A document is a sequence of
// items; an item is a whitespace character, a terminated comment, a
// whole element, or a text run; an element carries attributes and
// comments inside its opening tag and either self-closes or wraps
// content that ends with a close tag.  The bounds guarding each
// recursive call always hold (the lemmas below establish them along the
// way); they make the recursion well-founded by construction.
// ------------------------------------------------------------------

/// The position after the in-tag part that starts at `i` (attributes,
/// in-tag comments and whitespace, then `>` or `/>`), paired with `true`
/// for a self-closing tag.  `None` when the tag is not well-formed.
pub open spec fn intag_end(s: Seq<char>, i: int) -> Option<(int, bool)>
    decreases s.len() - i, 0int,
    when 0 <= i <= s.len()
{
    if i == s.len() {
        None
    } else if is_space(s[i]) {
        intag_end(s, i + 1)
    } else if s[i] == '>' {
        Some((i + 1, false))
    } else if s[i] == '/' {
        if i + 1 < s.len() && s[i + 1] == '>' {
            Some((i + 2, true))
        } else {
            None
        }
    } else if s[i] == '<' {
        if comment_marker(s, i) {
            match comment_close(s, i + 4) {
                Some(j) => if i < j + 3 <= s.len() {
                    intag_end(s, j + 3)
                } else {
                    None
                },
                None => None,
            }
        } else {
            None
        }
    } else if s[i] == '=' {
        None
    } else {
        let ae = attr_name_end(s, i);
        let g = skip_ws(s, ae);
        if g == s.len() || s[g] != '=' {
            if i < ae <= s.len() {
                intag_end(s, ae)
            } else {
                None
            }
        } else {
            let q = skip_ws(s, g + 1);
            if q < s.len() && s[q] == '"' {
                match value_end(s, q + 1) {
                    Some(v) => if i < v + 1 <= s.len() {
                        intag_end(s, v + 1)
                    } else {
                        None
                    },
                    None => None,
                }
            } else {
                None
            }
        }
    }
}

/// The position after the whole element that opens with `<` at `i`:
/// name, in-tag part, and, unless the tag self-closes, content followed
/// by a close tag.  `None` when the element is not well-formed.
pub open spec fn element_end(s: Seq<char>, i: int) -> Option<int>
    decreases s.len() - i, 1int,
    when 0 <= i < s.len()
{
    let ne = name_end(s, i + 1);
    if !(i + 1 < ne <= s.len()) {
        None
    } else {
        match intag_end(s, ne) {
            None => None,
            Some(pb) => if pb.1 {
                Some(pb.0)
            } else if i < pb.0 <= s.len() {
                content_close(s, pb.0)
            } else {
                None
            },
        }
    }
}

/// The position after one document-level item starting at `i`: a
/// whitespace character, a terminated comment, a whole element, or a
/// text run.  `None` when nothing well-formed starts there.
pub open spec fn item_end(s: Seq<char>, i: int) -> Option<int>
    decreases s.len() - i, 2int,
    when 0 <= i <= s.len()
{
    if i == s.len() {
        None
    } else if is_space(s[i]) {
        Some(i + 1)
    } else if s[i] == '<' {
        if i + 1 < s.len() && s[i + 1] == '/' {
            None
        } else if comment_marker(s, i) {
            match comment_close(s, i + 4) {
                Some(j) => Some(j + 3),
                None => None,
            }
        } else {
            element_end(s, i)
        }
    } else {
        Some(text_end(s, i))
    }
}

/// The position after element content that starts at `i`: items up to a
/// close tag, whose end it returns.  `None` when the content never
/// reaches a well-formed close tag.
pub open spec fn content_close(s: Seq<char>, i: int) -> Option<int>
    decreases s.len() - i, 3int,
    when 0 <= i <= s.len()
{
    if i == s.len() {
        None
    } else if s[i] == '<' && i + 1 < s.len() && s[i + 1] == '/' {
        let ne = close_name_end(s, i + 2);
        let g = skip_ws(s, ne);
        if g < s.len() && s[g] == '>' {
            Some(g + 1)
        } else {
            None
        }
    } else {
        match item_end(s, i) {
            Some(k) => if i < k <= s.len() {
                content_close(s, k)
            } else {
                None
            },
            None => None,
        }
    }
}

/// The region `i..len` is a well-formed sequence of document items.
pub open spec fn items_wf(s: Seq<char>, i: int) -> bool
    decreases s.len() - i, 3int,
    when 0 <= i <= s.len()
{
    i == s.len() || match item_end(s, i) {
        Some(k) => i < k <= s.len() && items_wf(s, k),
        None => false,
    }
}

/// A well-formed nested document: a sequence of whitespace, terminated
/// comments, whole elements and text runs, with every element closed at
/// its own nesting level.  A document whose comment or element runs into
/// the end of the input is not well-formed, even where the scanner ends
/// such a stream leniently rather than with an error.
pub open spec fn wf_document(s: Seq<char>) -> bool {
    items_wf(s, 0)
}

// ------------------------------------------------------------------
// Scanning a well-formed region is depth-neutral and error-free: one
// lemma per grammar production, by mutual induction along the grammar.
// ------------------------------------------------------------------

/// Scanning the in-tag part `i..pb.0` at depth `d >= 1` emits only
/// depth-neutral attribute and comment events, plus the closing pop when
/// the tag self-closes; afterwards the scan continues at the document
/// level with the depth lowered exactly when the pop was emitted.
proof fn lemma_intag(s: Seq<char>, i: int, emit: bool, d: int)
    requires
        0 <= i <= s.len(),
        intag_end(s, i) is Some,
        d >= 1,
    ensures
        ({
            let pb = intag_end(s, i)->Some_0;
            &&& i < pb.0 <= s.len()
            &&& trace_ok(s, i, ScanState::Element, emit, d) == trace_ok(
                s,
                pb.0,
                ScanState::Document,
                emit,
                if pb.1 {
                    d - 1
                } else {
                    d
                },
            )
            &&& final_depth(s, i, ScanState::Element, emit, d) == final_depth(
                s,
                pb.0,
                ScanState::Document,
                emit,
                if pb.1 {
                    d - 1
                } else {
                    d
                },
            )
        }),
    decreases s.len() - i, 0int,
{
    let pb = intag_end(s, i)->Some_0;
    if is_space(s[i]) {
        lemma_intag(s, i + 1, emit, d);
        assert(spec_step(s, i, ScanState::Element, emit) == spec_step(
            s,
            i + 1,
            ScanState::Element,
            emit,
        ));
    } else if s[i] == '>' {
        assert(spec_step(s, i, ScanState::Element, emit) == spec_step_element(s, i, emit));
        assert(spec_step_element(s, i, emit) == spec_step(s, i + 1, ScanState::Document, emit));
    } else if s[i] == '/' {
        assert(spec_step(s, i, ScanState::Element, emit) == spec_step_element(s, i, emit));
        assert(spec_step_element(s, i, emit) matches Step::Event {
            ev,
            pos: p2,
            state: m2,
        } && delta(ev) == -1 && p2 == i + 2 && m2 == ScanState::Document);
    } else if s[i] == '<' {
        lemma_comment_close(s, i + 4);
        let j = comment_close(s, i + 4)->Some_0;
        lemma_intag(s, j + 3, emit, d);
        assert(spec_step(s, i, ScanState::Element, emit) == spec_step_element(s, i, emit));
        if emit {
            assert(spec_step_element(s, i, emit) matches Step::Event {
                ev,
                pos: p2,
                state: m2,
            } && delta(ev) == 0 && p2 == j + 3 && m2 == ScanState::Element);
        } else {
            assert(spec_step_element(s, i, emit) == spec_step(s, j + 3, ScanState::Element, emit));
        }
    } else {
        lemma_seek(s, i, attr_stop());
        let ae = attr_name_end(s, i);
        lemma_seek(s, ae, non_space());
        let g = skip_ws(s, ae);
        if g == s.len() || s[g] != '=' {
            lemma_intag(s, ae, emit, d);
            assert(spec_step(s, i, ScanState::Element, emit) == spec_step_element(s, i, emit));
            assert(spec_step_element(s, i, emit) matches Step::Event {
                ev,
                pos: p2,
                state: m2,
            } && delta(ev) == 0 && p2 == ae && m2 == ScanState::Element);
        } else {
            lemma_seek(s, g + 1, non_space());
            let q = skip_ws(s, g + 1);
            lemma_value_end(s, q + 1);
            let v = value_end(s, q + 1)->Some_0;
            lemma_intag(s, v + 1, emit, d);
            assert(spec_step(s, i, ScanState::Element, emit) == spec_step_element(s, i, emit));
            assert(spec_step_element(s, i, emit) matches Step::Event {
                ev,
                pos: p2,
                state: m2,
            } && delta(ev) == 0 && p2 == v + 1 && m2 == ScanState::Element);
        }
    }
}

/// Scanning the whole element `i..k` at depth `d >= 0` opens it, works
/// through its tag and content, and closes it: the region is depth-
/// neutral and error-free, and the scan continues at `k`.
proof fn lemma_element(s: Seq<char>, i: int, emit: bool, d: int)
    requires
        0 <= i < s.len(),
        s[i] == '<',
        !(i + 1 < s.len() && s[i + 1] == '/'),
        !comment_marker(s, i),
        element_end(s, i) is Some,
        d >= 0,
    ensures
        ({
            let k = element_end(s, i)->Some_0;
            &&& i < k <= s.len()
            &&& trace_ok(s, i, ScanState::Document, emit, d) == trace_ok(
                s,
                k,
                ScanState::Document,
                emit,
                d,
            )
            &&& final_depth(s, i, ScanState::Document, emit, d) == final_depth(
                s,
                k,
                ScanState::Document,
                emit,
                d,
            )
        }),
    decreases s.len() - i, 1int,
{
    let k = element_end(s, i)->Some_0;
    lemma_seek(s, i + 1, name_stop());
    let ne = name_end(s, i + 1);
    assert(spec_step(s, i, ScanState::Document, emit) == spec_step_document(s, i, emit));
    assert(spec_step_document(s, i, emit) matches Step::Event {
        ev,
        pos: p2,
        state: m2,
    } && delta(ev) == 1 && p2 == ne && m2 == ScanState::Element);
    lemma_intag(s, ne, emit, d + 1);
    let pb = intag_end(s, ne)->Some_0;
    if pb.1 {
        assert(k == pb.0);
    } else {
        lemma_content(s, pb.0, emit, d + 1);
    }
}

/// Scanning one document-level item `i..k` at depth `d >= 0` is depth-
/// neutral and error-free, and the scan continues at `k`.
proof fn lemma_item(s: Seq<char>, i: int, emit: bool, d: int)
    requires
        0 <= i <= s.len(),
        item_end(s, i) is Some,
        d >= 0,
    ensures
        ({
            let k = item_end(s, i)->Some_0;
            &&& i < k <= s.len()
            &&& trace_ok(s, i, ScanState::Document, emit, d) == trace_ok(
                s,
                k,
                ScanState::Document,
                emit,
                d,
            )
            &&& final_depth(s, i, ScanState::Document, emit, d) == final_depth(
                s,
                k,
                ScanState::Document,
                emit,
                d,
            )
        }),
    decreases s.len() - i, 2int,
{
    let k = item_end(s, i)->Some_0;
    if is_space(s[i]) {
        assert(spec_step(s, i, ScanState::Document, emit) == spec_step(
            s,
            i + 1,
            ScanState::Document,
            emit,
        ));
    } else if s[i] == '<' {
        if comment_marker(s, i) {
            lemma_comment_close(s, i + 4);
            let j = comment_close(s, i + 4)->Some_0;
            assert(spec_step(s, i, ScanState::Document, emit) == spec_step_document(s, i, emit));
            if emit {
                assert(spec_step_document(s, i, emit) matches Step::Event {
                    ev,
                    pos: p2,
                    state: m2,
                } && delta(ev) == 0 && p2 == j + 3 && m2 == ScanState::Document);
            } else {
                assert(spec_step_document(s, i, emit) == spec_step(
                    s,
                    j + 3,
                    ScanState::Document,
                    emit,
                ));
            }
        } else {
            lemma_element(s, i, emit, d);
        }
    } else {
        lemma_seek(s, i, text_stop());
        lemma_rtrim(s, i, text_end(s, i));
        assert(!(text_stop()(s[i])));
        assert(spec_step(s, i, ScanState::Document, emit) == spec_step_document(s, i, emit));
        assert(spec_step_document(s, i, emit) matches Step::Event {
            ev,
            pos: p2,
            state: m2,
        } && delta(ev) == 0 && p2 == text_end(s, i) && m2 == ScanState::Document);
    }
}

/// Scanning element content `i..k` at depth `d >= 1` works item by item
/// and then takes the close tag: the scan continues at `k` with the
/// depth lowered by the emitted pop.
proof fn lemma_content(s: Seq<char>, i: int, emit: bool, d: int)
    requires
        0 <= i <= s.len(),
        content_close(s, i) is Some,
        d >= 1,
    ensures
        ({
            let k = content_close(s, i)->Some_0;
            &&& i < k <= s.len()
            &&& trace_ok(s, i, ScanState::Document, emit, d) == trace_ok(
                s,
                k,
                ScanState::Document,
                emit,
                d - 1,
            )
            &&& final_depth(s, i, ScanState::Document, emit, d) == final_depth(
                s,
                k,
                ScanState::Document,
                emit,
                d - 1,
            )
        }),
    decreases s.len() - i, 3int,
{
    let k = content_close(s, i)->Some_0;
    if s[i] == '<' && i + 1 < s.len() && s[i + 1] == '/' {
        lemma_seek(s, i + 2, close_stop());
        let ne = close_name_end(s, i + 2);
        lemma_seek(s, ne, non_space());
        assert(spec_step(s, i, ScanState::Document, emit) == spec_step_document(s, i, emit));
        assert(spec_step_document(s, i, emit) matches Step::Event {
            ev,
            pos: p2,
            state: m2,
        } && delta(ev) == -1 && p2 == k && m2 == ScanState::Document);
    } else {
        lemma_item(s, i, emit, d);
        let k1 = item_end(s, i)->Some_0;
        lemma_content(s, k1, emit, d);
    }
}

/// Scanning a well-formed sequence of items from `i` at depth `d >= 0`
/// runs to the end of the input without an error, never drops the depth
/// below zero, and ends at the depth it started from.
proof fn lemma_items(s: Seq<char>, i: int, emit: bool, d: int)
    requires
        0 <= i <= s.len(),
        items_wf(s, i),
        d >= 0,
    ensures
        trace_ok(s, i, ScanState::Document, emit, d),
        final_depth(s, i, ScanState::Document, emit, d) == d,
    decreases s.len() - i, 3int,
{
    if i == s.len() {
        assert(spec_step(s, i, ScanState::Document, emit) == Step::End);
    } else {
        lemma_item(s, i, emit, d);
        let k = item_end(s, i)->Some_0;
        lemma_items(s, k, emit, d);
    }
}

/// For every well-formed nested document, in either comment
/// configuration: the scan runs to the end of the input without an
/// error; a depth counter raised on each element open and lowered on
/// each close never goes negative and returns to zero at the end of the
/// stream; and the opens and closes are equal in number.
pub proof fn lemma_balanced_scan(s: Seq<char>, emit: bool)
    requires
        wf_document(s),
    ensures
        trace_ok(s, 0, ScanState::Document, emit, 0),
        final_depth(s, 0, ScanState::Document, emit, 0) == 0,
        push_count(s, 0, ScanState::Document, emit) == pop_count(s, 0, ScanState::Document, emit),
{
    lemma_items(s, 0, emit, 0);
    lemma_depth_counts(s, 0, ScanState::Document, emit, 0);
}

} // verus!
