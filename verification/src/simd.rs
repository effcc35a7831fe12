//! The fast-path scanner: it works on the raw bytes of the input and finds
//! every delimiter with a chunked token search, the portable rendition of a
//! 16-lane vectorized compare.  It accepts the ASCII inputs of the grammar
//! and is verified against the same step function as the reference scanner,
//! [`crate::model::spec_step`]; on the inputs both accept the two scanners
//! therefore produce identical event streams.

use vstd::prelude::*;
use vstd::string::StrSliceExecFns;
use vstd::utf8::{encode_utf8, is_ascii_chars, is_ascii_chars_encode_utf8};

use crate::event::{XmlError, XmlEvent};
use crate::model::{
    attr_name_end, attr_stop, close_name_end, close_stop, comment_close, comment_marker, is_space,
    name_end, name_stop, non_space, rtrim_end, seek, skip_ws, spec_step, spec_step_document,
    spec_step_element, text_end, text_stop, value_end, ScanState, Step,
};
use crate::scalar::Flow;

verus! {

/// The ASCII whitespace bytes: space, tab, newline, carriage return.
pub open spec fn ascii_space(b: u8) -> bool {
    b == 0x20 || b == 0x09 || b == 0x0A || b == 0x0D
}

/// The token sets the byte search is asked for, one number each: the
/// first non-whitespace byte; the end of an element name; the end of a
/// closing-tag name; the end of an attribute name; the end of a text
/// run; a dash.
pub open spec fn byte_stop(kind: u8, b: u8) -> bool {
    if kind == 0 {
        !ascii_space(b)
    } else if kind == 1 {
        ascii_space(b) || b == 0x3E || b == 0x2F
    } else if kind == 2 {
        ascii_space(b) || b == 0x3E
    } else if kind == 3 {
        ascii_space(b) || b == 0x3D || b == 0x3E || b == 0x2F
    } else if kind == 4 {
        b == 0x0A || b == 0x3C
    } else {
        b == 0x2D
    }
}

/// The character classification each token set stands for.
pub open spec fn char_stop(kind: u8) -> spec_fn(char) -> bool {
    if kind == 0 {
        non_space()
    } else if kind == 1 {
        name_stop()
    } else if kind == 2 {
        close_stop()
    } else if kind == 3 {
        attr_stop()
    } else if kind == 4 {
        text_stop()
    } else {
        |c: char| c == '-'
    }
}

fn is_stop_byte(kind: u8, b: u8) -> (r: bool)
    ensures
        r == byte_stop(kind, b),
{
    if kind == 0 {
        !(b == 0x20 || b == 0x09 || b == 0x0A || b == 0x0D)
    } else if kind == 1 {
        b == 0x20 || b == 0x09 || b == 0x0A || b == 0x0D || b == 0x3E || b == 0x2F
    } else if kind == 2 {
        b == 0x20 || b == 0x09 || b == 0x0A || b == 0x0D || b == 0x3E
    } else if kind == 3 {
        b == 0x20 || b == 0x09 || b == 0x0A || b == 0x0D || b == 0x3D || b == 0x3E || b == 0x2F
    } else if kind == 4 {
        b == 0x0A || b == 0x3C
    } else {
        b == 0x2D
    }
}

/// The first index at or after `i` whose byte belongs to the token set.
pub open spec fn byte_seek(b: Seq<u8>, i: int, kind: u8) -> int
    decreases b.len() - i,
    when 0 <= i <= b.len()
{
    if i == b.len() {
        i
    } else if byte_stop(kind, b[i]) {
        i
    } else {
        byte_seek(b, i + 1, kind)
    }
}

proof fn lemma_byte_seek_skip(b: Seq<u8>, i: int, j: int, kind: u8)
    requires
        0 <= i <= j <= b.len(),
        forall|t: int| i <= t < j ==> !byte_stop(kind, #[trigger] b[t]),
    ensures
        byte_seek(b, i, kind) == byte_seek(b, j, kind),
    decreases j - i,
{
    if i < j {
        lemma_byte_seek_skip(b, i + 1, j, kind);
    }
}

/// An ASCII character and its byte mean the same to every token set and
/// to every delimiter the scanner tests.
proof fn lemma_ascii_byte_char(c: char)
    requires
        '\0' <= c <= '\u{7f}',
    ensures
        byte_stop(0, c as u8) == non_space()(c),
        byte_stop(1, c as u8) == name_stop()(c),
        byte_stop(2, c as u8) == close_stop()(c),
        byte_stop(3, c as u8) == attr_stop()(c),
        byte_stop(4, c as u8) == text_stop()(c),
        byte_stop(5, c as u8) == (c == '-'),
        ascii_space(c as u8) == is_space(c),
        (c as u8 == 0x3C) == (c == '<'),
        (c as u8 == 0x3E) == (c == '>'),
        (c as u8 == 0x2F) == (c == '/'),
        (c as u8 == 0x3D) == (c == '='),
        (c as u8 == 0x22) == (c == '"'),
        (c as u8 == 0x5C) == (c == '\\'),
        (c as u8 == 0x21) == (c == '!'),
        (c as u8 == 0x2D) == (c == '-'),
        (c as u8) as char == c,
{
    vstd::utf8::char_is_scalar(c);
    vstd::utf8::char_u32_cast(c, c as u32);
}

/// All facts relating position `i` of the characters to position `i` of
/// their bytes, for ASCII input.
proof fn ascii_at(s: Seq<char>, b: Seq<u8>, i: int)
    requires
        is_ascii_chars(s),
        b == encode_utf8(s),
        0 <= i < s.len(),
    ensures
        b.len() == s.len(),
        b[i] == s[i] as u8,
        '\0' <= s[i] <= '\u{7f}',
        ascii_space(b[i]) == is_space(s[i]),
        (b[i] == 0x3C) == (s[i] == '<'),
        (b[i] == 0x3E) == (s[i] == '>'),
        (b[i] == 0x2F) == (s[i] == '/'),
        (b[i] == 0x3D) == (s[i] == '='),
        (b[i] == 0x22) == (s[i] == '"'),
        (b[i] == 0x5C) == (s[i] == '\\'),
        (b[i] == 0x21) == (s[i] == '!'),
        (b[i] == 0x2D) == (s[i] == '-'),
        s[i] == b[i] as char,
{
    is_ascii_chars_encode_utf8(s);
    lemma_ascii_byte_char(s[i]);
}

/// Over ASCII input the byte search and the character search agree.
proof fn lemma_byte_seek_chars(s: Seq<char>, b: Seq<u8>, i: int, kind: u8)
    requires
        is_ascii_chars(s),
        b == encode_utf8(s),
        0 <= i <= s.len(),
    ensures
        b.len() == s.len(),
        byte_seek(b, i, kind) == seek(s, i, char_stop(kind)),
    decreases s.len() - i,
{
    is_ascii_chars_encode_utf8(s);
    if i < s.len() {
        lemma_ascii_byte_char(s[i]);
        assert(byte_stop(kind, b[i]) == char_stop(kind)(s[i]));
        if !byte_stop(kind, b[i]) {
            lemma_byte_seek_chars(s, b, i + 1, kind);
        }
    }
}

/// The core search primitive: the first index at or after `from` whose
/// byte belongs to the token set `kind`.  It works through the buffer in
/// chunks of sixteen bytes: each chunk is compared lane by lane against
/// the set, a clear chunk is skipped whole, and a chunk with a match is
/// rescanned for its lowest matching lane — the shape of a vectorized
/// equality, mask, and count-trailing-zeros sequence, with the bytewise
/// rescan also covering the partial chunk at the buffer's tail.
fn mask_and_find(b: &[u8], n: usize, from: usize, kind: u8) -> (r: usize)
    requires
        n == b@.len(),
        from <= n,
    ensures
        r == byte_seek(b@, from as int, kind),
        from <= r <= n,
{
    let mut base = from;
    loop
        invariant
            n == b@.len(),
            from <= base <= n,
            byte_seek(b@, from as int, kind) == byte_seek(b@, base as int, kind),
        decreases n - base,
    {
        if base == n {
            return base;
        }
        let chunk: usize = if n - base >= 16 {
            16
        } else {
            n - base
        };
        let mut any = false;
        let mut j = base;
        while j < base + chunk
            invariant
                n == b@.len(),
                base <= j <= base + chunk,
                base + chunk <= n,
                any == exists|k: int| base <= k < j && byte_stop(kind, #[trigger] b@[k]),
            decreases base + chunk - j,
        {
            if is_stop_byte(kind, b[j]) {
                any = true;
                assert(byte_stop(kind, b@[j as int]));
            }
            j = j + 1;
        }
        if any {
            let mut k = base;
            while k < base + chunk
                invariant
                    n == b@.len(),
                    base <= k <= base + chunk,
                    base + chunk <= n,
                    from <= base,
                    forall|t: int| base <= t < k ==> !byte_stop(kind, #[trigger] b@[t]),
                    exists|t: int| base <= t < base + chunk && byte_stop(kind, #[trigger] b@[t]),
                    byte_seek(b@, from as int, kind) == byte_seek(b@, base as int, kind),
                    byte_seek(b@, base as int, kind) == byte_seek(b@, k as int, kind),
                decreases base + chunk - k,
            {
                if is_stop_byte(kind, b[k]) {
                    return k;
                }
                k = k + 1;
            }
            assert(false);
            return base;
        } else {
            assert forall|t: int| base <= t < base + chunk implies !byte_stop(
                kind,
                #[trigger] b@[t],
            ) by {}
            proof {
                lemma_byte_seek_skip(b@, base as int, base + chunk, kind);
            }
            base = base + chunk;
        }
    }
}

/// The start of the first `-->` at or after `from`: each candidate dash
/// is found with the chunked token search and checked bytewise.
fn bscan_comment_close(b: &[u8], n: usize, from: usize, Ghost(s): Ghost<Seq<char>>) -> (r: Option<
    usize,
>)
    requires
        is_ascii_chars(s),
        b@ == encode_utf8(s),
        n == s.len(),
        from <= n,
    ensures
        match r {
            Some(j) => comment_close(s, from as int) == Some(j as int) && from <= j && j + 3 <= n,
            None => comment_close(s, from as int) is None,
        },
{
    proof {
        is_ascii_chars_encode_utf8(s);
    }
    let mut j = from;
    loop
        invariant
            is_ascii_chars(s),
            b@ == encode_utf8(s),
            n == s.len(),
            n == b@.len(),
            from <= j <= n,
            comment_close(s, from as int) == comment_close(s, j as int),
        decreases n - j,
    {
        if n - j < 3 {
            return None;
        }
        let d = mask_and_find(b, n, j, 5);
        proof {
            lemma_byte_seek_chars(s, b@, j as int, 5);
            crate::model::lemma_seek(s, j as int, char_stop(5));
            assert forall|t: int| j <= t < d implies #[trigger] s[t] != '-' by {
                assert(!(char_stop(5)(s[t])));
            }
            lemma_comment_skip(s, j as int, d as int);
            if (d as int) < s.len() {
                assert(char_stop(5)(s[d as int]));
                assert(s[d as int] == '-');
            }
        }
        if n - d < 3 {
            return None;
        }
        proof {
            ascii_at(s, b@, d as int + 1);
            ascii_at(s, b@, d as int + 2);
        }
        if b[d + 1] == 0x2D && b[d + 2] == 0x3E {
            return Some(d);
        }
        j = d + 1;
    }
}

/// Dashless characters hold no comment terminator.
proof fn lemma_comment_skip(s: Seq<char>, i: int, j: int)
    requires
        0 <= i <= j <= s.len(),
        forall|t: int| i <= t < j ==> #[trigger] s[t] != '-',
    ensures
        comment_close(s, i) == comment_close(s, j),
    decreases j - i,
{
    if i < j {
        lemma_comment_skip(s, i + 1, j);
    }
}

/// The closing quote of an attribute value, found bytewise with the
/// backslash skipping of the attribute rule.
fn bscan_value_end(b: &[u8], n: usize, from: usize, Ghost(s): Ghost<Seq<char>>) -> (r: Option<
    usize,
>)
    requires
        is_ascii_chars(s),
        b@ == encode_utf8(s),
        n == s.len(),
        from <= n,
    ensures
        match r {
            Some(j) => value_end(s, from as int) == Some(j as int) && from <= j < n,
            None => value_end(s, from as int) is None,
        },
{
    proof {
        is_ascii_chars_encode_utf8(s);
    }
    let mut j = from;
    loop
        invariant
            is_ascii_chars(s),
            b@ == encode_utf8(s),
            n == s.len(),
            n == b@.len(),
            from <= j <= n,
            value_end(s, from as int) == value_end(s, j as int),
        decreases n - j,
    {
        if j == n {
            return None;
        }
        proof {
            ascii_at(s, b@, j as int);
        }
        let c = b[j];
        if c == 0x22 {
            return Some(j);
        }
        if c == 0x5C {
            if n - j >= 2 {
                j = j + 2;
            } else {
                return None;
            }
        } else {
            j = j + 1;
        }
    }
}

/// One document-level step at a non-whitespace character, decided
/// from the bytes.
fn bstep_document<'a>(s: &'a str, b: &'a [u8], n: usize, pos: usize, emit: bool) -> (f: Flow<'a>)
    requires
        is_ascii_chars(s@),
        b@ == encode_utf8(s@),
        n == s@.len(),
        pos < n,
        !is_space(s@[pos as int]),
    ensures
        match f {
            Flow::Emit(e, p2, m2) => spec_step_document(s@, pos as int, emit) == (Step::Event {
                ev: e@,
                pos: p2 as int,
                state: m2,
            }) && p2 <= n,
            Flow::Continue(p2, m2) => spec_step_document(s@, pos as int, emit) == spec_step(
                s@,
                p2 as int,
                m2,
                emit,
            ) && pos < p2 <= n && m2 != ScanState::Finished,
            Flow::Stop => spec_step_document(s@, pos as int, emit) == Step::End,
            Flow::Error(e) => spec_step_document(s@, pos as int, emit) == (Step::Fail {
                err: e@,
            }),
        },
{
    proof {
        ascii_at(s@, b@, pos as int);
    }
    let c = b[pos];
    if c == 0x3C {
        let is_close = if pos + 1 < n {
            proof {
                ascii_at(s@, b@, pos as int + 1);
            }
            b[pos + 1] == 0x2F
        } else {
            false
        };
        if is_close {
            // Close tag.
            let ne = mask_and_find(b, n, pos + 2, 2);
            proof {
                lemma_byte_seek_chars(s@, b@, pos as int + 2, 2);
                assert(ne == close_name_end(s@, pos as int + 2));
            }
            let g = mask_and_find(b, n, ne, 0);
            proof {
                lemma_byte_seek_chars(s@, b@, ne as int, 0);
                assert(g == skip_ws(s@, ne as int));
            }
            if g == n {
                Flow::Error(XmlError::UnexpectedEndOfInput)
            } else {
                proof {
                    ascii_at(s@, b@, g as int);
                }
                let gc = b[g];
                if gc != 0x3E {
                    Flow::Error(XmlError::UnexpectedChar(gc as char, g))
                } else {
                    let name = s.substring_ascii(pos + 2, ne);
                    Flow::Emit(
                        XmlEvent::PopElement { name: Some(name) },
                        g + 1,
                        ScanState::Document,
                    )
                }
            }
        } else {
            let is_marker = if n - pos >= 4 {
                proof {
                    ascii_at(s@, b@, pos as int + 1);
                    ascii_at(s@, b@, pos as int + 2);
                    ascii_at(s@, b@, pos as int + 3);
                }
                b[pos + 1] == 0x21 && b[pos + 2] == 0x2D && b[pos + 3] == 0x2D
            } else {
                false
            };
            if is_marker {
                // Comment.
                assert(comment_marker(s@, pos as int));
                match bscan_comment_close(b, n, pos + 4, Ghost(s@)) {
                    Some(j) => if emit {
                        let text = s.substring_ascii(pos + 4, j);
                        Flow::Emit(XmlEvent::Comment { text }, j + 3, ScanState::Document)
                    } else {
                        Flow::Continue(j + 3, ScanState::Document)
                    },
                    None => Flow::Stop,
                }
            } else {
                // Open tag.
                assert(!comment_marker(s@, pos as int));
                let ne = mask_and_find(b, n, pos + 1, 1);
                proof {
                    lemma_byte_seek_chars(s@, b@, pos as int + 1, 1);
                    assert(ne == name_end(s@, pos as int + 1));
                }
                if ne == pos + 1 {
                    Flow::Error(XmlError::MissingElementName)
                } else {
                    let name = s.substring_ascii(pos + 1, ne);
                    Flow::Emit(XmlEvent::PushElement { name }, ne, ScanState::Element)
                }
            }
        }
    } else {
        // Text run.
        let te = mask_and_find(b, n, pos, 4);
        proof {
            lemma_byte_seek_chars(s@, b@, pos as int, 4);
            assert(te == text_end(s@, pos as int));
        }
        let tr = bscan_rtrim(b, n, pos, te, Ghost(s@));
        let text = s.substring_ascii(pos, tr);
        Flow::Emit(XmlEvent::Text { text }, te, ScanState::Document)
    }
}

/// One element-level step at a non-whitespace character, decided
/// from the bytes.
fn bstep_element<'a>(s: &'a str, b: &'a [u8], n: usize, pos: usize, emit: bool) -> (f: Flow<'a>)
    requires
        is_ascii_chars(s@),
        b@ == encode_utf8(s@),
        n == s@.len(),
        pos < n,
        !is_space(s@[pos as int]),
    ensures
        match f {
            Flow::Emit(e, p2, m2) => spec_step_element(s@, pos as int, emit) == (Step::Event {
                ev: e@,
                pos: p2 as int,
                state: m2,
            }) && p2 <= n,
            Flow::Continue(p2, m2) => spec_step_element(s@, pos as int, emit) == spec_step(
                s@,
                p2 as int,
                m2,
                emit,
            ) && pos < p2 <= n && m2 != ScanState::Finished,
            Flow::Stop => spec_step_element(s@, pos as int, emit) == Step::End,
            Flow::Error(e) => spec_step_element(s@, pos as int, emit) == (Step::Fail { err: e@ }),
        },
{
    proof {
        ascii_at(s@, b@, pos as int);
    }
    let c = b[pos];
    if c == 0x3C {
        // Only the opening of a comment may follow `<` inside a tag.
        if pos + 1 == n {
            return Flow::Error(XmlError::UnexpectedEndOfInput);
        }
        proof {
            ascii_at(s@, b@, pos as int + 1);
        }
        let c1 = b[pos + 1];
        if c1 != 0x21 {
            return Flow::Error(XmlError::UnexpectedChar(c1 as char, pos + 1));
        }
        if pos + 2 == n {
            return Flow::Error(XmlError::UnexpectedEndOfInput);
        }
        proof {
            ascii_at(s@, b@, pos as int + 2);
        }
        let c2 = b[pos + 2];
        if c2 != 0x2D {
            return Flow::Error(XmlError::UnexpectedChar(c2 as char, pos + 2));
        }
        if pos + 3 == n {
            return Flow::Error(XmlError::UnexpectedEndOfInput);
        }
        proof {
            ascii_at(s@, b@, pos as int + 3);
        }
        let c3 = b[pos + 3];
        if c3 != 0x2D {
            return Flow::Error(XmlError::UnexpectedChar(c3 as char, pos + 3));
        }
        assert(comment_marker(s@, pos as int));
        match bscan_comment_close(b, n, pos + 4, Ghost(s@)) {
            Some(j) => if emit {
                let text = s.substring_ascii(pos + 4, j);
                Flow::Emit(XmlEvent::Comment { text }, j + 3, ScanState::Element)
            } else {
                Flow::Continue(j + 3, ScanState::Element)
            },
            None => Flow::Stop,
        }
    } else if c == 0x3E {
        // `>` closes the opening tag; the document level continues.
        Flow::Continue(pos + 1, ScanState::Document)
    } else if c == 0x2F {
        if pos + 1 == n {
            Flow::Error(XmlError::UnexpectedEndOfInput)
        } else {
            proof {
                ascii_at(s@, b@, pos as int + 1);
            }
            let c1 = b[pos + 1];
            if c1 == 0x3E {
                Flow::Emit(XmlEvent::PopElement { name: None }, pos + 2, ScanState::Document)
            } else {
                Flow::Error(XmlError::UnexpectedChar(c1 as char, pos + 1))
            }
        }
    } else if c == 0x3D {
        Flow::Error(XmlError::MissingAttributeName)
    } else {
        // Attribute.
        let ae = mask_and_find(b, n, pos, 3);
        proof {
            lemma_byte_seek_chars(s@, b@, pos as int, 3);
            assert(ae == attr_name_end(s@, pos as int));
        }
        let g = mask_and_find(b, n, ae, 0);
        proof {
            lemma_byte_seek_chars(s@, b@, ae as int, 0);
            assert(g == skip_ws(s@, ae as int));
        }
        let has_eq = if g < n {
            proof {
                ascii_at(s@, b@, g as int);
            }
            b[g] == 0x3D
        } else {
            false
        };
        if !has_eq {
            let name = s.substring_ascii(pos, ae);
            Flow::Emit(XmlEvent::Attr { name, value: None }, ae, ScanState::Element)
        } else {
            let q = mask_and_find(b, n, g + 1, 0);
            proof {
                lemma_byte_seek_chars(s@, b@, g as int + 1, 0);
                assert(q == skip_ws(s@, g as int + 1));
            }
            if q == n {
                Flow::Error(XmlError::UnexpectedEndOfInput)
            } else {
                proof {
                    ascii_at(s@, b@, q as int);
                }
                let qc = b[q];
                if qc != 0x22 {
                    Flow::Error(XmlError::UnexpectedChar(qc as char, q))
                } else {
                    match bscan_value_end(b, n, q + 1, Ghost(s@)) {
                        None => Flow::Error(XmlError::UnterminatedAttributeValue),
                        Some(v) => {
                            let name = s.substring_ascii(pos, ae);
                            let value = s.substring_ascii(q + 1, v);
                            Flow::Emit(
                                XmlEvent::Attr { name, value: Some(value) },
                                v + 1,
                                ScanState::Element,
                            )
                        },
                    }
                }
            }
        }
    }
}

/// The end of the run `from..to` with trailing ASCII whitespace removed.
fn bscan_rtrim(b: &[u8], n: usize, from: usize, to: usize, Ghost(s): Ghost<Seq<char>>) -> (r:
    usize)
    requires
        is_ascii_chars(s),
        b@ == encode_utf8(s),
        n == s.len(),
        from <= to <= n,
    ensures
        r == rtrim_end(s, from as int, to as int),
        from <= r <= to,
{
    proof {
        is_ascii_chars_encode_utf8(s);
    }
    let mut j = to;
    loop
        invariant
            is_ascii_chars(s),
            b@ == encode_utf8(s),
            n == s.len(),
            n == b@.len(),
            from <= j <= to <= n,
            rtrim_end(s, from as int, to as int) == rtrim_end(s, from as int, j as int),
        decreases j,
    {
        if j == from {
            return j;
        }
        proof {
            ascii_at(s, b@, j as int - 1);
        }
        let c = b[j - 1];
        if !(c == 0x20 || c == 0x09 || c == 0x0A || c == 0x0D) {
            return j;
        }
        j = j - 1;
    }
}

/// The fast-path scanner: the same cursor, level bit and line counter as
/// the reference scanner, driven by the chunked byte search.  It covers
/// the ASCII inputs of the grammar; a document whose characters go beyond
/// ASCII belongs to the reference scanner.
pub struct Parser<'a> {
    input: &'a str,
    n: usize,
    pos: usize,
    state: ScanState,
    emit_comments: bool,
    line_count: usize,
}

impl<'a> Parser<'a> {
    /// The characters of the buffer this scanner reads.
    pub closed spec fn src(self) -> Seq<char> {
        self.input@
    }

    /// The cursor, as an index that counts characters and bytes alike.
    pub closed spec fn cursor(self) -> int {
        self.pos as int
    }

    /// The scanning level the next step starts from.
    pub closed spec fn mode(self) -> ScanState {
        self.state
    }

    /// Whether comments are emitted as events rather than elided.
    pub closed spec fn emits(self) -> bool {
        self.emit_comments
    }

    pub closed spec fn wf(self) -> bool {
        &&& self.n == self.input@.len()
        &&& self.pos <= self.n
        &&& is_ascii_chars(self.input@)
    }

    /// A fresh scanner over the ASCII buffer `input`, at the document
    /// level, eliding comments.
    pub fn new(input: &'a str) -> (p: Self)
        requires
            input.is_ascii(),
        ensures
            p.wf(),
            p.src() == input@,
            p.cursor() == 0,
            p.mode() == ScanState::Document,
            !p.emits(),
            p.line_count() == 0,
    {
        Parser {
            input,
            n: input.unicode_len(),
            pos: 0,
            state: ScanState::Document,
            emit_comments: false,
            line_count: 0,
        }
    }

    /// The same scanner, with comments emitted as [`XmlEvent::Comment`]
    /// events instead of being elided.
    pub fn with_comments(self) -> (p: Self)
        ensures
            p.wf() == self.wf(),
            p.src() == self.src(),
            p.cursor() == self.cursor(),
            p.mode() == self.mode(),
            p.emits(),
            p.line_count() == self.line_count(),
    {
        Parser { emit_comments: true, ..self }
    }

    /// Produces the next event of the stream, or `Ok(None)` at its end, or
    /// the error that terminates it, exactly as [`spec_step`] maps the
    /// scanner's state: the same contract as the reference scanner, so the
    /// two produce identical event streams.
    pub fn next_event(&mut self) -> (r: Result<Option<XmlEvent<'a>>, XmlError>)
        requires
            old(self).wf(),
        ensures
            final(self).wf(),
            final(self).src() == old(self).src(),
            final(self).emits() == old(self).emits(),
            final(self).line_count() == old(self).line_count(),
            match spec_step(old(self).src(), old(self).cursor(), old(self).mode(), old(
                self,
            ).emits()) {
                Step::Event { ev, pos, state } => {
                    &&& r matches Ok(Some(e)) && e@ == ev
                    &&& final(self).cursor() == pos
                    &&& final(self).mode() == state
                },
                Step::End => r matches Ok(None) && final(self).mode() == ScanState::Finished,
                Step::Fail { err } => {
                    &&& r matches Err(e) && e@ == err
                    &&& final(self).mode() == ScanState::Finished
                },
            },
    {
        let s = self.input;
        let n = self.n;
        let emit = self.emit_comments;
        let b = s.as_bytes();
        proof {
            is_ascii_chars_encode_utf8(s@);
        }
        if self.state == ScanState::Finished {
            return Ok(None);
        }
        let mut pos = self.pos;
        let mut st = self.state;
        loop
            invariant
                *self == *old(self),
                self.wf(),
                self.input == s,
                self.n == n,
                self.emit_comments == emit,
                n == s@.len(),
                is_ascii_chars(s@),
                b@ == encode_utf8(s@),
                n == b@.len(),
                pos <= n,
                st != ScanState::Finished,
                spec_step(s@, self.pos as int, self.state, emit) == spec_step(
                    s@,
                    pos as int,
                    st,
                    emit,
                ),
            decreases n - pos,
        {
            if pos == n {
                self.state = ScanState::Finished;
                if st == ScanState::Document {
                    return Ok(None);
                } else {
                    return Err(XmlError::UnexpectedEndOfInput);
                }
            }
            proof {
                ascii_at(s@, b@, pos as int);
            }
            let c = b[pos];
            if c == 0x20 || c == 0x09 || c == 0x0A || c == 0x0D {
                proof {
                    assert(is_space(s@[pos as int]));
                    assert(spec_step(s@, pos as int, st, emit) == spec_step(
                        s@,
                        pos as int + 1,
                        st,
                        emit,
                    ));
                }
                pos = pos + 1;
                continue;
            }
            assert(!is_space(s@[pos as int]));
            let flow = if st == ScanState::Document {
                proof {
                    assert(spec_step(s@, pos as int, st, emit) == spec_step_document(
                        s@,
                        pos as int,
                        emit,
                    ));
                }
                bstep_document(s, b, n, pos, emit)
            } else {
                proof {
                    assert(spec_step(s@, pos as int, st, emit) == spec_step_element(
                        s@,
                        pos as int,
                        emit,
                    ));
                }
                bstep_element(s, b, n, pos, emit)
            };
            match flow {
                Flow::Emit(e, p2, m2) => {
                    self.pos = p2;
                    self.state = m2;
                    return Ok(Some(e));
                },
                Flow::Continue(p2, m2) => {
                    pos = p2;
                    st = m2;
                },
                Flow::Stop => {
                    self.state = ScanState::Finished;
                    return Ok(None);
                },
                Flow::Error(e) => {
                    self.state = ScanState::Finished;
                    return Err(e);
                },
            }
        }
    }

    /// How many newlines [`Self::enter`] has recorded: best-effort
    /// instrumentation for error reporting, not part of the scan's
    /// contract.
    pub closed spec fn line_count(self) -> int {
        self.line_count as int
    }

    /// Records that the cursor passed the start of a new line.
    pub fn enter(&mut self)
        requires
            old(self).line_count() < usize::MAX,
        ensures
            final(self).line_count() == old(self).line_count() + 1,
            final(self).wf() == old(self).wf(),
            final(self).src() == old(self).src(),
            final(self).cursor() == old(self).cursor(),
            final(self).mode() == old(self).mode(),
            final(self).emits() == old(self).emits(),
    {
        self.line_count = self.line_count + 1;
    }
}

} // verus!
