//! The Unicode-aware reference scanner.  It advances one character at a
//! time over the view of the input and is verified against
//! [`crate::model::spec_step`] exactly.

use vstd::prelude::*;
use vstd::string::StrSliceExecFns;

use crate::event::{XmlError, XmlEvent};
use crate::model::{
    attr_name_end, attr_stop, close_name_end, close_stop, comment_close, comment_marker, is_space,
    name_end, name_stop, non_space, rtrim_end, seek, skip_ws, spec_step, spec_step_document,
    spec_step_element, text_end, text_stop, value_end, ScanState, Step,
};

verus! {

/// Whether `c` belongs to the recognized whitespace set of the model.
pub fn is_space_char(c: char) -> (b: bool)
    ensures
        b == is_space(c),
{
    c == ' ' || c == '\t' || c == '\n' || c == '\r' || c == '\u{00A0}' || c == '\u{2002}' || c
        == '\u{2003}' || c == '\u{2028}' || c == '\u{2029}' || c == '\u{202F}' || c == '\u{3000}'
        || c == '\u{200F}'
}

/// The first index at or after `from` holding a non-whitespace character.
fn scan_skip_ws(s: &str, n: usize, from: usize) -> (r: usize)
    requires
        n == s@.len(),
        from <= n,
    ensures
        r == skip_ws(s@, from as int),
        from <= r <= n,
{
    let mut j = from;
    loop
        invariant
            n == s@.len(),
            from <= j <= n,
            seek(s@, from as int, non_space()) == seek(s@, j as int, non_space()),
        decreases n - j,
    {
        if j == n {
            return j;
        }
        let c = s.get_char(j);
        if !is_space_char(c) {
            assert(non_space()(s@[j as int]));
            return j;
        }
        assert(!non_space()(s@[j as int]));
        j = j + 1;
    }
}

/// The first index at or after `from` holding whitespace, `>` or `/`.
fn scan_name_end(s: &str, n: usize, from: usize) -> (r: usize)
    requires
        n == s@.len(),
        from <= n,
    ensures
        r == name_end(s@, from as int),
        from <= r <= n,
{
    let mut j = from;
    loop
        invariant
            n == s@.len(),
            from <= j <= n,
            seek(s@, from as int, name_stop()) == seek(s@, j as int, name_stop()),
        decreases n - j,
    {
        if j == n {
            return j;
        }
        let c = s.get_char(j);
        if is_space_char(c) || c == '>' || c == '/' {
            assert(name_stop()(s@[j as int]));
            return j;
        }
        assert(!name_stop()(s@[j as int]));
        j = j + 1;
    }
}

/// The first index at or after `from` holding whitespace or `>`.
fn scan_close_name_end(s: &str, n: usize, from: usize) -> (r: usize)
    requires
        n == s@.len(),
        from <= n,
    ensures
        r == close_name_end(s@, from as int),
        from <= r <= n,
{
    let mut j = from;
    loop
        invariant
            n == s@.len(),
            from <= j <= n,
            seek(s@, from as int, close_stop()) == seek(s@, j as int, close_stop()),
        decreases n - j,
    {
        if j == n {
            return j;
        }
        let c = s.get_char(j);
        if is_space_char(c) || c == '>' {
            assert(close_stop()(s@[j as int]));
            return j;
        }
        assert(!close_stop()(s@[j as int]));
        j = j + 1;
    }
}

/// The first index at or after `from` holding whitespace, `=`, `>` or `/`.
fn scan_attr_name_end(s: &str, n: usize, from: usize) -> (r: usize)
    requires
        n == s@.len(),
        from <= n,
    ensures
        r == attr_name_end(s@, from as int),
        from <= r <= n,
{
    let mut j = from;
    loop
        invariant
            n == s@.len(),
            from <= j <= n,
            seek(s@, from as int, attr_stop()) == seek(s@, j as int, attr_stop()),
        decreases n - j,
    {
        if j == n {
            return j;
        }
        let c = s.get_char(j);
        if is_space_char(c) || c == '=' || c == '>' || c == '/' {
            assert(attr_stop()(s@[j as int]));
            return j;
        }
        assert(!attr_stop()(s@[j as int]));
        j = j + 1;
    }
}

/// The first index at or after `from` holding a newline or `<`.
fn scan_text_end(s: &str, n: usize, from: usize) -> (r: usize)
    requires
        n == s@.len(),
        from <= n,
    ensures
        r == text_end(s@, from as int),
        from <= r <= n,
{
    let mut j = from;
    loop
        invariant
            n == s@.len(),
            from <= j <= n,
            seek(s@, from as int, text_stop()) == seek(s@, j as int, text_stop()),
        decreases n - j,
    {
        if j == n {
            return j;
        }
        let c = s.get_char(j);
        if c == '\n' || c == '<' {
            assert(text_stop()(s@[j as int]));
            return j;
        }
        assert(!text_stop()(s@[j as int]));
        j = j + 1;
    }
}

/// The end of the run `from..to` with trailing whitespace removed.
fn scan_rtrim(s: &str, n: usize, from: usize, to: usize) -> (r: usize)
    requires
        n == s@.len(),
        from <= to <= n,
    ensures
        r == rtrim_end(s@, from as int, to as int),
        from <= r <= to,
{
    let mut j = to;
    loop
        invariant
            n == s@.len(),
            from <= j <= to <= n,
            rtrim_end(s@, from as int, to as int) == rtrim_end(s@, from as int, j as int),
        decreases j,
    {
        if j == from {
            return j;
        }
        let c = s.get_char(j - 1);
        if !is_space_char(c) {
            return j;
        }
        j = j - 1;
    }
}

/// The start of the first `-->` at or after `from`, or `None` when the
/// comment runs to the end of the input.
fn scan_comment_close(s: &str, n: usize, from: usize) -> (r: Option<usize>)
    requires
        n == s@.len(),
        from <= n,
    ensures
        match r {
            Some(j) => comment_close(s@, from as int) == Some(j as int) && from <= j && j + 3 <= n,
            None => comment_close(s@, from as int) is None,
        },
{
    let mut j = from;
    loop
        invariant
            n == s@.len(),
            from <= j <= n,
            comment_close(s@, from as int) == comment_close(s@, j as int),
        decreases n - j,
    {
        if n - j < 3 {
            return None;
        }
        if s.get_char(j) == '-' && s.get_char(j + 1) == '-' && s.get_char(j + 2) == '>' {
            return Some(j);
        }
        j = j + 1;
    }
}

/// The index of the unescaped closing quote of a value body starting at
/// `from`, or `None` when the input ends first.
fn scan_value_end(s: &str, n: usize, from: usize) -> (r: Option<usize>)
    requires
        n == s@.len(),
        from <= n,
    ensures
        match r {
            Some(j) => value_end(s@, from as int) == Some(j as int) && from <= j < n,
            None => value_end(s@, from as int) is None,
        },
{
    let mut j = from;
    loop
        invariant
            n == s@.len(),
            from <= j <= n,
            value_end(s@, from as int) == value_end(s@, j as int),
        decreases n - j,
    {
        if j == n {
            return None;
        }
        let c = s.get_char(j);
        if c == '"' {
            return Some(j);
        }
        if c == '\\' {
            if n - j >= 2 {
                j = j + 2;
            } else {
                return None;
            }
        } else {
            j = j + 1;
        }
    }
}

/// What one document- or element-level step yields: an event with the
/// cursor and level that follow it, a new cursor and level with nothing
/// emitted, the silent end of the stream, or a fatal error.
pub(crate) enum Flow<'a> {
    Emit(XmlEvent<'a>, usize, ScanState),
    Continue(usize, ScanState),
    Stop,
    Error(XmlError),
}

/// One document-level step at a non-whitespace character.
fn step_document<'a>(s: &'a str, n: usize, pos: usize, emit: bool) -> (f: Flow<'a>)
    requires
        n == s@.len(),
        pos < n,
        !is_space(s@[pos as int]),
    ensures
        match f {
            Flow::Emit(e, p2, m2) => spec_step_document(s@, pos as int, emit) == (Step::Event {
                ev: e@,
                pos: p2 as int,
                state: m2,
            }) && p2 <= n,
            Flow::Continue(p2, m2) => spec_step_document(s@, pos as int, emit) == spec_step(
                s@,
                p2 as int,
                m2,
                emit,
            ) && pos < p2 <= n && m2 != ScanState::Finished,
            Flow::Stop => spec_step_document(s@, pos as int, emit) == Step::End,
            Flow::Error(e) => spec_step_document(s@, pos as int, emit) == (Step::Fail {
                err: e@,
            }),
        },
{
    let c = s.get_char(pos);
    if c == '<' {
        if pos + 1 < n && s.get_char(pos + 1) == '/' {
            // Close tag.
            let ne = scan_close_name_end(s, n, pos + 2);
            let g = scan_skip_ws(s, n, ne);
            if g == n {
                Flow::Error(XmlError::UnexpectedEndOfInput)
            } else {
                let gc = s.get_char(g);
                if gc != '>' {
                    Flow::Error(XmlError::UnexpectedChar(gc, g))
                } else {
                    let name = s.substring_char(pos + 2, ne);
                    Flow::Emit(
                        XmlEvent::PopElement { name: Some(name) },
                        g + 1,
                        ScanState::Document,
                    )
                }
            }
        } else if n - pos >= 4 && s.get_char(pos + 1) == '!' && s.get_char(pos + 2) == '-'
            && s.get_char(pos + 3) == '-' {
            // Comment.
            assert(comment_marker(s@, pos as int));
            match scan_comment_close(s, n, pos + 4) {
                Some(j) => if emit {
                    let text = s.substring_char(pos + 4, j);
                    Flow::Emit(XmlEvent::Comment { text }, j + 3, ScanState::Document)
                } else {
                    Flow::Continue(j + 3, ScanState::Document)
                },
                None => Flow::Stop,
            }
        } else {
            // Open tag.
            let ne = scan_name_end(s, n, pos + 1);
            if ne == pos + 1 {
                Flow::Error(XmlError::MissingElementName)
            } else {
                let name = s.substring_char(pos + 1, ne);
                Flow::Emit(XmlEvent::PushElement { name }, ne, ScanState::Element)
            }
        }
    } else {
        // Text run.
        let te = scan_text_end(s, n, pos);
        let tr = scan_rtrim(s, n, pos, te);
        let text = s.substring_char(pos, tr);
        Flow::Emit(XmlEvent::Text { text }, te, ScanState::Document)
    }
}

/// One element-level step at a non-whitespace character.
fn step_element<'a>(s: &'a str, n: usize, pos: usize, emit: bool) -> (f: Flow<'a>)
    requires
        n == s@.len(),
        pos < n,
        !is_space(s@[pos as int]),
    ensures
        match f {
            Flow::Emit(e, p2, m2) => spec_step_element(s@, pos as int, emit) == (Step::Event {
                ev: e@,
                pos: p2 as int,
                state: m2,
            }) && p2 <= n,
            Flow::Continue(p2, m2) => spec_step_element(s@, pos as int, emit) == spec_step(
                s@,
                p2 as int,
                m2,
                emit,
            ) && pos < p2 <= n && m2 != ScanState::Finished,
            Flow::Stop => spec_step_element(s@, pos as int, emit) == Step::End,
            Flow::Error(e) => spec_step_element(s@, pos as int, emit) == (Step::Fail { err: e@ }),
        },
{
    let c = s.get_char(pos);
    if c == '<' {
        // Only the opening of a comment may follow `<` inside a tag.
        if pos + 1 == n {
            return Flow::Error(XmlError::UnexpectedEndOfInput);
        }
        let c1 = s.get_char(pos + 1);
        if c1 != '!' {
            return Flow::Error(XmlError::UnexpectedChar(c1, pos + 1));
        }
        if pos + 2 == n {
            return Flow::Error(XmlError::UnexpectedEndOfInput);
        }
        let c2 = s.get_char(pos + 2);
        if c2 != '-' {
            return Flow::Error(XmlError::UnexpectedChar(c2, pos + 2));
        }
        if pos + 3 == n {
            return Flow::Error(XmlError::UnexpectedEndOfInput);
        }
        let c3 = s.get_char(pos + 3);
        if c3 != '-' {
            return Flow::Error(XmlError::UnexpectedChar(c3, pos + 3));
        }
        assert(comment_marker(s@, pos as int));
        match scan_comment_close(s, n, pos + 4) {
            Some(j) => if emit {
                let text = s.substring_char(pos + 4, j);
                Flow::Emit(XmlEvent::Comment { text }, j + 3, ScanState::Element)
            } else {
                Flow::Continue(j + 3, ScanState::Element)
            },
            None => Flow::Stop,
        }
    } else if c == '>' {
        // `>` only closes the opening tag; the document level continues.
        Flow::Continue(pos + 1, ScanState::Document)
    } else if c == '/' {
        if pos + 1 == n {
            Flow::Error(XmlError::UnexpectedEndOfInput)
        } else {
            let c1 = s.get_char(pos + 1);
            if c1 == '>' {
                Flow::Emit(XmlEvent::PopElement { name: None }, pos + 2, ScanState::Document)
            } else {
                Flow::Error(XmlError::UnexpectedChar(c1, pos + 1))
            }
        }
    } else if c == '=' {
        Flow::Error(XmlError::MissingAttributeName)
    } else {
        // Attribute.
        let ae = scan_attr_name_end(s, n, pos);
        let g = scan_skip_ws(s, n, ae);
        if g == n || s.get_char(g) != '=' {
            let name = s.substring_char(pos, ae);
            Flow::Emit(XmlEvent::Attr { name, value: None }, ae, ScanState::Element)
        } else {
            let q = scan_skip_ws(s, n, g + 1);
            if q == n {
                Flow::Error(XmlError::UnexpectedEndOfInput)
            } else {
                let qc = s.get_char(q);
                if qc != '"' {
                    Flow::Error(XmlError::UnexpectedChar(qc, q))
                } else {
                    match scan_value_end(s, n, q + 1) {
                        None => Flow::Error(XmlError::UnterminatedAttributeValue),
                        Some(v) => {
                            let name = s.substring_char(pos, ae);
                            let value = s.substring_char(q + 1, v);
                            Flow::Emit(
                                XmlEvent::Attr { name, value: Some(value) },
                                v + 1,
                                ScanState::Element,
                            )
                        },
                    }
                }
            }
        }
    }
}

/// The Unicode-aware scanner: a cursor over the characters of one borrowed
/// input buffer, one level bit, and a best-effort line counter.
pub struct Parser<'a> {
    input: &'a str,
    n: usize,
    pos: usize,
    state: ScanState,
    emit_comments: bool,
    line_count: usize,
}

impl<'a> Parser<'a> {
    /// The characters of the buffer this scanner reads.
    pub closed spec fn src(self) -> Seq<char> {
        self.input@
    }

    /// The cursor, as an index into [`Self::src`].
    pub closed spec fn cursor(self) -> int {
        self.pos as int
    }

    /// The scanning level the next step starts from.
    pub closed spec fn mode(self) -> ScanState {
        self.state
    }

    /// Whether comments are emitted as events rather than elided.
    pub closed spec fn emits(self) -> bool {
        self.emit_comments
    }

    pub closed spec fn wf(self) -> bool {
        &&& self.n == self.input@.len()
        &&& self.pos <= self.n
    }

    /// A fresh scanner over `input`, at the document level, eliding
    /// comments.
    pub fn new(input: &'a str) -> (p: Self)
        ensures
            p.wf(),
            p.src() == input@,
            p.cursor() == 0,
            p.mode() == ScanState::Document,
            !p.emits(),
            p.line_count() == 0,
    {
        Parser {
            input,
            n: input.unicode_len(),
            pos: 0,
            state: ScanState::Document,
            emit_comments: false,
            line_count: 0,
        }
    }

    /// A fresh scanner over `input`; the conventional entry point.
    pub fn from(input: &'a str) -> (p: Self)
        ensures
            p.wf(),
            p.src() == input@,
            p.cursor() == 0,
            p.mode() == ScanState::Document,
            !p.emits(),
            p.line_count() == 0,
    {
        Self::new(input)
    }

    /// The same scanner, with comments emitted as [`XmlEvent::Comment`]
    /// events instead of being elided.
    pub fn with_comments(self) -> (p: Self)
        ensures
            p.wf() == self.wf(),
            p.src() == self.src(),
            p.cursor() == self.cursor(),
            p.mode() == self.mode(),
            p.emits(),
            p.line_count() == self.line_count(),
    {
        Parser { emit_comments: true, ..self }
    }

    /// How many newlines [`Self::enter`] has recorded: best-effort
    /// instrumentation for error reporting, not part of the scan's
    /// contract.
    pub closed spec fn line_count(self) -> int {
        self.line_count as int
    }

    /// Produces the next event of the stream, or `Ok(None)` at its end, or
    /// the error that terminates it, exactly as [`spec_step`] maps the
    /// scanner's state.  After `Ok(None)` or an error the scanner rests in
    /// the terminal state and every later call returns `Ok(None)`.
    pub fn next_event(&mut self) -> (r: Result<Option<XmlEvent<'a>>, XmlError>)
        requires
            old(self).wf(),
        ensures
            final(self).wf(),
            final(self).src() == old(self).src(),
            final(self).emits() == old(self).emits(),
            final(self).line_count() == old(self).line_count(),
            match spec_step(old(self).src(), old(self).cursor(), old(self).mode(), old(
                self,
            ).emits()) {
                Step::Event { ev, pos, state } => {
                    &&& r matches Ok(Some(e)) && e@ == ev
                    &&& final(self).cursor() == pos
                    &&& final(self).mode() == state
                },
                Step::End => r matches Ok(None) && final(self).mode() == ScanState::Finished,
                Step::Fail { err } => {
                    &&& r matches Err(e) && e@ == err
                    &&& final(self).mode() == ScanState::Finished
                },
            },
    {
        let s = self.input;
        let n = self.n;
        let emit = self.emit_comments;
        if self.state == ScanState::Finished {
            return Ok(None);
        }
        let mut pos = self.pos;
        let mut st = self.state;
        loop
            invariant
                *self == *old(self),
                self.wf(),
                self.input == s,
                self.n == n,
                self.emit_comments == emit,
                n == s@.len(),
                pos <= n,
                st != ScanState::Finished,
                spec_step(s@, self.pos as int, self.state, emit) == spec_step(
                    s@,
                    pos as int,
                    st,
                    emit,
                ),
            decreases n - pos,
        {
            if pos == n {
                self.state = ScanState::Finished;
                if st == ScanState::Document {
                    return Ok(None);
                } else {
                    return Err(XmlError::UnexpectedEndOfInput);
                }
            }
            let c = s.get_char(pos);
            if is_space_char(c) {
                proof {
                    assert(spec_step(s@, pos as int, st, emit) == spec_step(
                        s@,
                        pos as int + 1,
                        st,
                        emit,
                    ));
                }
                pos = pos + 1;
                continue;
            }
            let flow = if st == ScanState::Document {
                proof {
                    assert(spec_step(s@, pos as int, st, emit) == spec_step_document(
                        s@,
                        pos as int,
                        emit,
                    ));
                }
                step_document(s, n, pos, emit)
            } else {
                proof {
                    assert(spec_step(s@, pos as int, st, emit) == spec_step_element(
                        s@,
                        pos as int,
                        emit,
                    ));
                }
                step_element(s, n, pos, emit)
            };
            match flow {
                Flow::Emit(e, p2, m2) => {
                    self.pos = p2;
                    self.state = m2;
                    return Ok(Some(e));
                },
                Flow::Continue(p2, m2) => {
                    pos = p2;
                    st = m2;
                },
                Flow::Stop => {
                    self.state = ScanState::Finished;
                    return Ok(None);
                },
                Flow::Error(e) => {
                    self.state = ScanState::Finished;
                    return Err(e);
                },
            }
        }
    }

    /// Records that the cursor passed the start of a new line.
    pub fn enter(&mut self)
        requires
            old(self).line_count() < usize::MAX,
        ensures
            final(self).line_count() == old(self).line_count() + 1,
            final(self).wf() == old(self).wf(),
            final(self).src() == old(self).src(),
            final(self).cursor() == old(self).cursor(),
            final(self).mode() == old(self).mode(),
            final(self).emits() == old(self).emits(),
    {
        self.line_count = self.line_count + 1;
    }
}

} // verus!
