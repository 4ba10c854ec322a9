//! Form extraction: splits raw input bytes into whole forms — one balanced
//! bracketed list or one bare atom at a time — and reports where each form
//! begins. This is a byte-level scanner: it counts brackets and whitespace
//! and leaves the grammar to the parser.

use crate::error::Loc;
use crate::error::SexpfmtError;
use crate::error::style_text;
use crate::sexp::SExpBookendStyle;
use vstd::prelude::*;
use vstd::string::StringExecFns;
use vstd::utf8::encode_utf8;
use vstd::utf8::valid_utf8;

verus! {

/// The bytes the form reader treats as whitespace between forms: space,
/// newline, carriage return, horizontal and vertical tab.
pub open spec fn is_ws_byte(b: u8) -> bool {
    b == 32 || b == 10 || b == 13 || b == 9 || b == 11
}

/// An opening bracket byte of any style.
pub open spec fn is_open_byte(b: u8) -> bool {
    b == 40 || b == 91 || b == 123
}

/// A closing bracket byte of any style.
pub open spec fn is_close_byte(b: u8) -> bool {
    b == 41 || b == 93 || b == 125
}

/// Any bracket byte.
pub open spec fn is_bracket_byte(b: u8) -> bool {
    is_open_byte(b) || is_close_byte(b)
}

/// The style an opening bracket byte announces.
pub open spec fn style_of_open_byte(b: u8) -> SExpBookendStyle {
    if b == 40 {
        SExpBookendStyle::Parentheses
    } else if b == 91 {
        SExpBookendStyle::SquareBrackets
    } else {
        SExpBookendStyle::CurlyBraces
    }
}

/// The style a closing bracket byte announces.
pub open spec fn style_of_close_byte(b: u8) -> SExpBookendStyle {
    if b == 41 {
        SExpBookendStyle::Parentheses
    } else if b == 93 {
        SExpBookendStyle::SquareBrackets
    } else {
        SExpBookendStyle::CurlyBraces
    }
}

/// How one consumed byte advances a position: the offset always moves by
/// one; a newline starts the next line at column 1, anything else moves one
/// column along.
pub open spec fn next_loc_spec(l: Loc, b: u8) -> Loc {
    Loc {
        offset: (l.offset + 1) as usize,
        line: if b == 10 {
            (l.line + 1) as usize
        } else {
            l.line
        },
        column: if b == 10 {
            1
        } else {
            (l.column + 1) as usize
        },
    }
}

/// The position of the byte at index `n`: the result of advancing from
/// offset 0, line 1, column 1 over the first `n` bytes.
pub open spec fn loc_at(s: Seq<u8>, n: int) -> Loc
    decreases n,
{
    if n <= 0 {
        Loc { offset: 0, line: 1, column: 1 }
    } else {
        next_loc_spec(loc_at(s, n - 1), s[n - 1])
    }
}

pub proof fn lemma_loc_at(s: Seq<u8>, n: int)
    requires
        0 <= n <= s.len() < usize::MAX,
    ensures
        loc_at(s, n).offset == n,
        1 <= loc_at(s, n).line <= n + 1,
        1 <= loc_at(s, n).column <= n + 1,
    decreases n,
{
    if n > 0 {
        lemma_loc_at(s, n - 1);
    }
}

/// Index of the first byte from `i` on that is not whitespace.
pub open spec fn ws_end(s: Seq<u8>, i: int) -> int
    decreases s.len() - i,
{
    if 0 <= i < s.len() && is_ws_byte(s[i]) {
        ws_end(s, i + 1)
    } else {
        i
    }
}

pub proof fn lemma_ws_end(s: Seq<u8>, i: int)
    requires
        0 <= i <= s.len(),
    ensures
        i <= ws_end(s, i) <= s.len(),
        ws_end(s, i) < s.len() ==> !is_ws_byte(s[ws_end(s, i)]),
    decreases s.len() - i,
{
    if 0 <= i < s.len() && is_ws_byte(s[i]) {
        lemma_ws_end(s, i + 1);
    }
}

/// Index of the first whitespace byte (or the end) from `i` on: where a bare
/// atom's bytes stop.
pub open spec fn atom_bare_end(s: Seq<u8>, i: int) -> int
    decreases s.len() - i,
{
    if 0 <= i < s.len() && !is_ws_byte(s[i]) {
        atom_bare_end(s, i + 1)
    } else {
        i
    }
}

/// What scanning for a balanced form from `i` with the given stack of open
/// bookends runs into.
pub enum FormScan {
    /// The innermost-first stack emptied: the form ends just before `end`.
    Done { end: int },
    /// A closing bookend did not match the innermost open one.
    Mismatch { at: int, got: SExpBookendStyle, expected: SExpBookendStyle },
    /// A closing bookend appeared with nothing open.
    BareClose { at: int, style: SExpBookendStyle },
    /// The input ended with `open` bookends still unclosed.
    MoreNeeded { open: int },
    /// The input ended with nothing open (never reached from a bracket).
    Empty,
}

/// The bracket-balancing scan. It is deliberately naive: every byte counts,
/// whether or not it stands inside a quoted string or a comment — the parser
/// is the judge of the extracted text.
pub open spec fn scan_list(s: Seq<u8>, i: int, stack: Seq<SExpBookendStyle>) -> FormScan
    decreases s.len() - i,
{
    if i < 0 || i >= s.len() {
        if stack.len() > 0 {
            FormScan::MoreNeeded { open: stack.len() as int }
        } else {
            FormScan::Empty
        }
    } else if is_open_byte(s[i]) {
        scan_list(s, i + 1, stack.push(style_of_open_byte(s[i])))
    } else if is_close_byte(s[i]) {
        let st = style_of_close_byte(s[i]);
        if stack.len() == 0 {
            FormScan::BareClose { at: i, style: st }
        } else if stack.last() != st {
            FormScan::Mismatch { at: i, got: st, expected: stack.last() }
        } else if stack.len() == 1 {
            FormScan::Done { end: i + 1 }
        } else {
            scan_list(s, i + 1, stack.drop_last())
        }
    } else {
        scan_list(s, i + 1, stack)
    }
}

/// What `FormReader::get` returns when it stands at the non-whitespace
/// index `p1`, and where it stands afterwards (`pos1`).
pub open spec fn form_read_post_at(
    s: Seq<u8>,
    p1: int,
    r: Result<Option<(String, Loc)>, SexpfmtError>,
    pos1: int,
) -> bool {
    let loc1 = loc_at(s, p1);
    if p1 >= s.len() {
        r == Ok::<Option<(String, Loc)>, SexpfmtError>(None) && pos1 == p1
    } else if is_bracket_byte(s[p1]) {
        match scan_list(s, p1, Seq::empty()) {
            FormScan::Done { end } => pos1 == end && (match r {
                Ok(Some((t, l))) => valid_utf8(s.subrange(p1, end)) && encode_utf8(t@)
                    == s.subrange(p1, end) && l == loc1,
                Err(e) => !valid_utf8(s.subrange(p1, end)) && (e
                    matches SexpfmtError::FormReader { message, position } && message@
                    == "Invalid UTF-8 in list"@ && position == Some(loc1)),
                _ => false,
            }),
            FormScan::Mismatch { at, got, expected } => pos1 == at + 1 && r == Err::<
                Option<(String, Loc)>,
                SexpfmtError,
            >(
                SexpfmtError::MismatchedBookends { position: loc_at(s, at), got, expected },
            ),
            FormScan::BareClose { at, style } => pos1 == at + 1 && (r matches Err(e) && (e
                matches SexpfmtError::InvalidInput { message, position } && message@
                == "Unexpected closing bookend "@ + style_text(style) && position == loc_at(
                s,
                at,
            ))),
            FormScan::MoreNeeded { open } => pos1 == s.len() && (r matches Err(e) && (e
                matches SexpfmtError::UnexpectedEof { position, unclosed_count } && position
                == loc1 && unclosed_count as int == open)),
            FormScan::Empty => false,
        }
    } else {
        let be = atom_bare_end(s, p1);
        let content = s.subrange(p1, be);
        let pos_after = if be < s.len() {
            be + 1
        } else {
            be
        };
        pos1 == pos_after && (match r {
            Ok(Some((t, l))) => valid_utf8(content) && encode_utf8(t@) == content && l == loc1,
            Err(e) => !valid_utf8(content) && (e matches SexpfmtError::FormReader {
                message,
                position,
            } && message@ == "Invalid UTF-8 in atom"@ && position == Some(loc1)),
            _ => false,
        })
    }
}

/// What `FormReader::get` returns starting at `pos0`: leading whitespace is
/// consumed first.
pub open spec fn form_read_post(
    s: Seq<u8>,
    pos0: int,
    r: Result<Option<(String, Loc)>, SexpfmtError>,
    pos1: int,
) -> bool {
    form_read_post_at(s, ws_end(s, pos0), r, pos1)
}

/// Relies on `String::from_utf8`: it succeeds exactly on valid UTF-8, and the
/// returned string's bytes are the input bytes.
#[verifier::external_body]
fn utf8_string(bytes: Vec<u8>) -> (r: Result<String, std::string::FromUtf8Error>)
    ensures
        match r {
            Ok(t) => valid_utf8(bytes@) && encode_utf8(t@) == bytes@,
            Err(_) => !valid_utf8(bytes@),
        },
{
    String::from_utf8(bytes)
}

/// A cursor over in-memory bytes that hands one byte out at a time and
/// tracks the position of the next unconsumed byte.
struct ByteReader {
    input: Vec<u8>,
    pos: usize,
    peek_loc: Loc,
}

impl ByteReader {
    spec fn wf(&self) -> bool {
        self.pos <= self.input@.len() && self.input@.len() < usize::MAX && self.peek_loc == loc_at(
            self.input@,
            self.pos as int,
        )
    }

    fn new(input: Vec<u8>) -> (r: Self)
        requires
            input@.len() < usize::MAX,
        ensures
            r.wf(),
            r.input@ == input@,
            r.pos == 0,
    {
        Self { input, pos: 0, peek_loc: Loc::new(0, 1, 1) }
    }

    /// Consumes and returns the next byte, or reports the end of input.
    fn get(&mut self) -> (r: Option<u8>)
        requires
            old(self).wf(),
        ensures
            final(self).wf(),
            final(self).input == old(self).input,
            match r {
                Some(b) => old(self).pos < old(self).input@.len() && b == old(self).input@[old(
                    self,
                ).pos as int] && final(self).pos == old(self).pos + 1,
                None => old(self).pos == old(self).input@.len() && final(self).pos == old(
                    self,
                ).pos,
            },
    {
        if self.pos < self.input.len() {
            let b = self.input[self.pos];
            proof {
                lemma_loc_at(self.input@, self.pos as int);
            }
            self.peek_loc = Self::next_loc(self.peek_loc, b);
            self.pos = self.pos + 1;
            Some(b)
        } else {
            None
        }
    }

    /// The next byte, without consuming it.
    fn peek(&self) -> (r: Option<u8>)
        requires
            self.wf(),
        ensures
            match r {
                Some(b) => self.pos < self.input@.len() && b == self.input@[self.pos as int],
                None => self.pos == self.input@.len(),
            },
    {
        if self.pos < self.input.len() {
            Some(self.input[self.pos])
        } else {
            None
        }
    }

    /// The position of the next unconsumed byte.
    fn peek_loc(&self) -> (r: Loc)
        requires
            self.wf(),
        ensures
            r == loc_at(self.input@, self.pos as int),
    {
        self.peek_loc
    }

    /// Advances a position over one consumed byte.
    fn next_loc(old_loc: Loc, byte: u8) -> (r: Loc)
        requires
            old_loc.offset < usize::MAX,
            old_loc.line < usize::MAX,
            old_loc.column < usize::MAX,
        ensures
            r == next_loc_spec(old_loc, byte),
    {
        if byte == 10 {
            Loc::new(old_loc.offset + 1, old_loc.line + 1, 1)
        } else {
            Loc::new(old_loc.offset + 1, old_loc.line, old_loc.column + 1)
        }
    }
}

/// Splits in-memory input into forms: each `get` skips whitespace and hands
/// back the next balanced list or bare atom with its starting position.
pub struct FormReader {
    inner: ByteReader,
}

impl FormReader {
    /// The reader's input bytes.
    pub closed spec fn bytes(&self) -> Seq<u8> {
        self.inner.input@
    }

    /// How many bytes are consumed so far.
    pub closed spec fn pos(&self) -> int {
        self.inner.pos as int
    }

    /// The reader's internal invariant.
    pub closed spec fn wf(&self) -> bool {
        self.inner.wf()
    }

    pub fn new(input: Vec<u8>) -> (r: Self)
        requires
            input@.len() < usize::MAX,
        ensures
            r.wf(),
            r.bytes() == input@,
            r.pos() == 0,
    {
        Self { inner: ByteReader::new(input) }
    }

    fn is_whitespace_byte(b: u8) -> (r: bool)
        ensures
            r == is_ws_byte(b),
    {
        match b {
            32 | 10 | 13 | 9 | 11 => true,
            _ => false,
        }
    }

    /// The next form and its starting position, `None` at the end of input,
    /// or the error that cut the scan short.
    pub fn get(&mut self) -> (r: Result<Option<(String, Loc)>, SexpfmtError>)
        requires
            old(self).wf(),
        ensures
            final(self).wf(),
            final(self).bytes() == old(self).bytes(),
            form_read_post(old(self).bytes(), old(self).pos(), r, final(self).pos()),
    {
        self.skip_whitespace_prefix();
        proof {
            lemma_ws_end(old(self).bytes(), old(self).pos());
        }
        let position = self.inner.peek_loc();
        self.get_without_whitespace_prefix(position)
    }

    /// Consumes whitespace bytes until a form or the end of input begins.
    #[verifier::loop_isolation(false)]
    fn skip_whitespace_prefix(&mut self)
        requires
            old(self).wf(),
        ensures
            final(self).wf(),
            final(self).bytes() == old(self).bytes(),
            final(self).pos() == ws_end(old(self).bytes(), old(self).pos()),
    {
        loop
            invariant
                self.wf(),
                self.bytes() == old(self).bytes(),
                ws_end(self.bytes(), self.pos()) == ws_end(old(self).bytes(), old(self).pos()),
            decreases self.bytes().len() - self.pos(),
        {
            match self.inner.peek() {
                Some(b) => {
                    if Self::is_whitespace_byte(b) {
                        let _ = self.inner.get();
                    } else {
                        return ;
                    }
                },
                None => {
                    return ;
                },
            }
        }
    }

    /// Dispatches on the first byte of a form: a bracket begins a balanced
    /// list, anything else a bare atom.
    fn get_without_whitespace_prefix(&mut self, position: Loc) -> (r: Result<
        Option<(String, Loc)>,
        SexpfmtError,
    >)
        requires
            old(self).wf(),
            position == loc_at(old(self).bytes(), old(self).pos()),
            old(self).pos() < old(self).bytes().len() ==> !is_ws_byte(
                old(self).bytes()[old(self).pos()],
            ),
        ensures
            final(self).wf(),
            final(self).bytes() == old(self).bytes(),
            form_read_post_at(old(self).bytes(), old(self).pos(), r, final(self).pos()),
    {
        match self.inner.peek() {
            Some(b) => {
                if b == 40 || b == 41 || b == 91 || b == 93 || b == 123 || b == 125 {
                    self.get_list_without_whitespace_prefix(position)
                } else {
                    self.get_atom_without_whitespace_prefix(position)
                }
            },
            None => Ok(None),
        }
    }

    /// Scans one balanced bracketed form, collecting its bytes, and decodes
    /// them; fails on a mismatched or bare closing bookend, or when the
    /// input ends with bookends still open.
    #[verifier::loop_isolation(false)]
    fn get_list_without_whitespace_prefix(&mut self, position: Loc) -> (r: Result<
        Option<(String, Loc)>,
        SexpfmtError,
    >)
        requires
            old(self).wf(),
            old(self).pos() < old(self).bytes().len(),
            is_bracket_byte(old(self).bytes()[old(self).pos()]),
            position == loc_at(old(self).bytes(), old(self).pos()),
        ensures
            final(self).wf(),
            final(self).bytes() == old(self).bytes(),
            form_read_post_at(old(self).bytes(), old(self).pos(), r, final(self).pos()),
    {
        let ghost s = old(self).bytes();
        let ghost start = old(self).pos();
        let mut bookend_stack: Vec<SExpBookendStyle> = Vec::new();
        let mut bytes: Vec<u8> = Vec::new();
        loop
            invariant
                self.wf(),
                self.bytes() == s,
                start <= self.pos() <= s.len(),
                bytes@ == s.subrange(start, self.pos()),
                scan_list(s, start, Seq::empty()) == scan_list(s, self.pos(), bookend_stack@),
                self.pos() > start ==> bookend_stack@.len() > 0,
            decreases s.len() - self.pos(),
        {
            let bloc = self.inner.peek_loc();
            let b = self.inner.get();
            match b {
                None => {
                    proof {
                        assert(bookend_stack@.len() > 0);
                    }
                    return Err(
                        SexpfmtError::unexpected_eof(position, bookend_stack.len()),
                    );
                },
                Some(b) => {
                    let ghost cur = self.pos() - 1;
                    bytes.push(b);
                    proof {
                        assert(bytes@ =~= s.subrange(start, cur + 1));
                    }
                    if b == 40 || b == 91 || b == 123 {
                        let st = if b == 40 {
                            SExpBookendStyle::Parentheses
                        } else if b == 91 {
                            SExpBookendStyle::SquareBrackets
                        } else {
                            SExpBookendStyle::CurlyBraces
                        };
                        bookend_stack.push(st);
                    } else if b == 41 || b == 93 || b == 125 {
                        let st = if b == 41 {
                            SExpBookendStyle::Parentheses
                        } else if b == 93 {
                            SExpBookendStyle::SquareBrackets
                        } else {
                            SExpBookendStyle::CurlyBraces
                        };
                        if bookend_stack.len() == 0 {
                            let mut message = String::new();
                            message.append("Unexpected closing bookend ");
                            crate::error::push_style(&mut message, st);
                            return Err(SexpfmtError::invalid_input(message, bloc));
                        }
                        let top = bookend_stack[bookend_stack.len() - 1];
                        if top != st {
                            return Err(SexpfmtError::mismatched_bookends(bloc, st, top));
                        }
                        let _ = bookend_stack.pop();
                        if bookend_stack.len() == 0 {
                            match utf8_string(bytes) {
                                Ok(t) => {
                                    return Ok(Some((t, position)));
                                },
                                Err(_) => {
                                    let mut message = String::new();
                                    message.append("Invalid UTF-8 in list");
                                    return Err(
                                        SexpfmtError::form_reader_error(
                                            message,
                                            Some(position),
                                        ),
                                    );
                                },
                            }
                        }
                    }
                },
            }
        }
    }

    /// Scans one bare atom: everything up to the next whitespace byte (which
    /// is consumed) or the end of input, decoded.
    #[verifier::loop_isolation(false)]
    fn get_atom_without_whitespace_prefix(&mut self, position: Loc) -> (r: Result<
        Option<(String, Loc)>,
        SexpfmtError,
    >)
        requires
            old(self).wf(),
            old(self).pos() < old(self).bytes().len(),
            !is_bracket_byte(old(self).bytes()[old(self).pos()]),
            !is_ws_byte(old(self).bytes()[old(self).pos()]),
            position == loc_at(old(self).bytes(), old(self).pos()),
        ensures
            final(self).wf(),
            final(self).bytes() == old(self).bytes(),
            form_read_post_at(old(self).bytes(), old(self).pos(), r, final(self).pos()),
    {
        let ghost s = old(self).bytes();
        let ghost start = old(self).pos();
        let mut bytes: Vec<u8> = Vec::new();
        loop
            invariant
                self.wf(),
                self.bytes() == s,
                start <= self.pos() <= s.len(),
                bytes@ == s.subrange(start, self.pos()),
                atom_bare_end(s, start) == atom_bare_end(s, self.pos()),
            decreases s.len() - self.pos(),
        {
            let b = self.inner.get();
            match b {
                Some(b) => {
                    let ghost cur = self.pos() - 1;
                    if !Self::is_whitespace_byte(b) {
                        bytes.push(b);
                        proof {
                            assert(bytes@ =~= s.subrange(start, cur + 1));
                        }
                    } else {
                        return Self::finish_atom(bytes, position);
                    }
                },
                None => {
                    return Self::finish_atom(bytes, position);
                },
            }
        }
    }

    /// Decodes a collected atom's bytes.
    fn finish_atom(bytes: Vec<u8>, position: Loc) -> (r: Result<
        Option<(String, Loc)>,
        SexpfmtError,
    >)
        ensures
            match r {
                Ok(Some((t, l))) => valid_utf8(bytes@) && encode_utf8(t@) == bytes@ && l
                    == position,
                Err(e) => !valid_utf8(bytes@) && (e matches SexpfmtError::FormReader {
                    message,
                    position: p,
                } && message@ == "Invalid UTF-8 in atom"@ && p == Some(position)),
                Ok(None) => false,
            },
    {
        match utf8_string(bytes) {
            Ok(t) => Ok(Some((t, position))),
            Err(_) => {
                let mut message = String::new();
                message.append("Invalid UTF-8 in atom");
                Err(SexpfmtError::form_reader_error(message, Some(position)))
            },
        }
    }
}

} // verus!
