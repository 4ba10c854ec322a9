//! Positions and the closed error taxonomy shared by the form reader and the
//! parser. Every error message is assembled by verified code; its exact text
//! is stated as a sequence of characters.

use crate::sexp::SExpBookendStyle;
use vstd::prelude::*;
use vstd::seq_lib::group_seq_lib_default;
use vstd::string::StrSliceExecFns;
use vstd::string::StringExecFns;

verus! {

broadcast use group_seq_lib_default;

/// A source position: character offset from the start of the input, with the
/// 1-based line and column it falls on. Used only for diagnostics.
#[derive(Debug, Clone, Copy, PartialEq, Eq, Structural)]
pub struct Loc {
    pub offset: usize,
    pub line: usize,
    pub column: usize,
}

impl Loc {
    pub fn new(offset: usize, line: usize, column: usize) -> (r: Self)
        ensures
            r == (Loc { offset, line, column }),
    {
        Self { offset, line, column }
    }

    pub fn offset(self) -> (r: usize)
        ensures
            r == self.offset,
    {
        self.offset
    }

    pub fn line(self) -> (r: usize)
        ensures
            r == self.line,
    {
        self.line
    }

    pub fn column(self) -> (r: usize)
        ensures
            r == self.column,
    {
        self.column
    }

    /// The text this position displays as.
    pub fn to_message(self) -> (r: String)
        ensures
            r@ == loc_text(self),
    {
        let mut out = String::new();
        push_loc(&mut out, self);
        proof {
            assert(out@ =~= loc_text(self));
        }
        out
    }

    /// Translates a position measured inside a single extracted form back into
    /// the coordinate space of the original document: offsets add, lines add
    /// minus the shared first line, and the column shifts only while the
    /// sub-position is still on the form's first line.
    pub fn in_form(
        start_of_form_loc: Self,
        offset_in_form: usize,
        line_in_form: usize,
        column_in_form: usize,
    ) -> (r: Self)
        requires
            line_in_form >= 1,
            column_in_form >= 1,
            start_of_form_loc.offset + offset_in_form <= usize::MAX,
            start_of_form_loc.line + line_in_form - 1 <= usize::MAX,
            start_of_form_loc.column + column_in_form - 1 <= usize::MAX,
        ensures
            r.offset == start_of_form_loc.offset + offset_in_form,
            r.line == start_of_form_loc.line + line_in_form - 1,
            r.column == if line_in_form == 1 {
                start_of_form_loc.column + column_in_form - 1
            } else {
                column_in_form as int
            },
    {
        Self {
            offset: start_of_form_loc.offset + offset_in_form,
            line: start_of_form_loc.line + (line_in_form - 1),
            column: if line_in_form == 1 {
                start_of_form_loc.column + (column_in_form - 1)
            } else {
                column_in_form
            },
        }
    }
}

/// `std::io::Error`, declared so the `Io` variant can carry the failure it
/// wraps; the library never looks inside the value.
#[verifier::external_type_specification]
#[verifier::external_body]
pub struct ExIoError(std::io::Error);

/// `std::string::FromUtf8Error`, declared so the `Utf8` variant can carry the
/// failure it wraps; the library never looks inside the value.
#[verifier::external_type_specification]
#[verifier::external_body]
pub struct ExFromUtf8Error(std::string::FromUtf8Error);

/// What can go wrong between reading raw text and emitting a tree. Each
/// variant produced during parsing or form extraction carries the position of
/// the offending input.
#[derive(Debug)]
pub enum SexpfmtError {
    Io { source: std::io::Error },
    Utf8 { source: std::string::FromUtf8Error },
    FormReader { message: String, position: Option<Loc> },
    Parse { message: String, position: Loc },
    MismatchedBookends { position: Loc, got: SExpBookendStyle, expected: SExpBookendStyle },
    UnexpectedEof { position: Loc, unclosed_count: usize },
    InvalidInput { message: String, position: Loc },
}

impl From<std::io::Error> for SexpfmtError {
    fn from(source: std::io::Error) -> (r: Self) {
        SexpfmtError::Io { source }
    }
}

impl vstd::std_specs::convert::FromSpecImpl<std::io::Error> for SexpfmtError {
    open spec fn obeys_from_spec() -> bool {
        true
    }

    open spec fn from_spec(source: std::io::Error) -> Self {
        SexpfmtError::Io { source }
    }
}

impl From<std::string::FromUtf8Error> for SexpfmtError {
    fn from(source: std::string::FromUtf8Error) -> (r: Self) {
        SexpfmtError::Utf8 { source }
    }
}

impl vstd::std_specs::convert::FromSpecImpl<std::string::FromUtf8Error> for SexpfmtError {
    open spec fn obeys_from_spec() -> bool {
        true
    }

    open spec fn from_spec(source: std::string::FromUtf8Error) -> Self {
        SexpfmtError::Utf8 { source }
    }
}

impl SexpfmtError {
    pub fn form_reader_error(message: String, position: Option<Loc>) -> (r: Self)
        ensures
            r == (SexpfmtError::FormReader { message, position }),
    {
        Self::FormReader { message, position }
    }

    pub fn parse_error(message: String, position: Loc) -> (r: Self)
        ensures
            r == (SexpfmtError::Parse { message, position }),
    {
        Self::Parse { message, position }
    }

    pub fn mismatched_bookends(
        position: Loc,
        got: SExpBookendStyle,
        expected: SExpBookendStyle,
    ) -> (r: Self)
        ensures
            r == (SexpfmtError::MismatchedBookends { position, got, expected }),
    {
        Self::MismatchedBookends { position, got, expected }
    }

    pub fn unexpected_eof(position: Loc, unclosed_count: usize) -> (r: Self)
        ensures
            r == (SexpfmtError::UnexpectedEof { position, unclosed_count }),
    {
        Self::UnexpectedEof { position, unclosed_count }
    }

    pub fn invalid_input(message: String, position: Loc) -> (r: Self)
        ensures
            r == (SexpfmtError::InvalidInput { message, position }),
    {
        Self::InvalidInput { message, position }
    }

    /// The human-readable description of the error; for every variant whose
    /// content this library produces itself, the exact text is specified.
    pub fn to_message(&self) -> (r: String)
        ensures
            !(self is Io) && !(self is Utf8) ==> r@ == error_text(*self),
            self is Io ==> ("IO error: "@).is_prefix_of(r@),
            self is Utf8 ==> ("UTF-8 encoding error: "@).is_prefix_of(r@),
    {
        let mut out = String::new();
        match self {
            SexpfmtError::Io { source } => {
                out.append("IO error: ");
                let s = source.to_string();
                out.append(s.as_str());
            },
            SexpfmtError::Utf8 { source } => {
                out.append("UTF-8 encoding error: ");
                let s = source.to_string();
                out.append(s.as_str());
            },
            SexpfmtError::FormReader { message, position } => {
                match position {
                    Some(l) => {
                        out.append("Form reader error at ");
                        push_loc(&mut out, *l);
                        out.append(": ");
                        out.append(message.as_str());
                    },
                    None => {
                        out.append("Form reader error: ");
                        out.append(message.as_str());
                    },
                }
                proof {
                    assert(out@ =~= error_text(*self));
                }
            },
            SexpfmtError::Parse { message, position } => {
                out.append("Parse error at ");
                push_loc(&mut out, *position);
                out.append(": ");
                out.append(message.as_str());
                proof {
                    assert(out@ =~= error_text(*self));
                }
            },
            SexpfmtError::MismatchedBookends { position, got, expected } => {
                out.append("Mismatched bookends at ");
                push_loc(&mut out, *position);
                out.append(": got ");
                push_style(&mut out, *got);
                out.append(", expected ");
                push_style(&mut out, *expected);
                proof {
                    assert(out@ =~= error_text(*self));
                }
            },
            SexpfmtError::UnexpectedEof { position, unclosed_count } => {
                out.append("Unexpected EOF at ");
                push_loc(&mut out, *position);
                out.append(": ");
                push_decimal(&mut out, *unclosed_count);
                out.append(" unclosed bookends");
                proof {
                    assert(out@ =~= error_text(*self));
                }
            },
            SexpfmtError::InvalidInput { message, position } => {
                out.append("Invalid input at ");
                push_loc(&mut out, *position);
                out.append(": ");
                out.append(message.as_str());
                proof {
                    assert(out@ =~= error_text(*self));
                }
            },
        }
        out
    }
}

/// The decimal digits of `n`, most significant first.
pub open spec fn dec_digits(n: nat) -> Seq<char>
    decreases n,
{
    if n < 10 {
        seq![digit_char(n)]
    } else {
        dec_digits(n / 10).push(digit_char(n % 10))
    }
}

/// The character for one decimal digit.
pub open spec fn digit_char(d: nat) -> char {
    if d == 0 {
        '0'
    } else if d == 1 {
        '1'
    } else if d == 2 {
        '2'
    } else if d == 3 {
        '3'
    } else if d == 4 {
        '4'
    } else if d == 5 {
        '5'
    } else if d == 6 {
        '6'
    } else if d == 7 {
        '7'
    } else if d == 8 {
        '8'
    } else {
        '9'
    }
}

/// The text a position displays as.
pub open spec fn loc_text(l: Loc) -> Seq<char> {
    "line "@ + dec_digits(l.line as nat) + ", column "@ + dec_digits(l.column as nat)
        + " (offset "@ + dec_digits(l.offset as nat) + ")"@
}

/// The text a bookend style displays as.
pub open spec fn style_text(st: SExpBookendStyle) -> Seq<char> {
    match st {
        SExpBookendStyle::Parentheses => "Parentheses"@,
        SExpBookendStyle::SquareBrackets => "SquareBrackets"@,
        SExpBookendStyle::CurlyBraces => "CurlyBraces"@,
    }
}

/// The full message text of every variant this library produces itself. The
/// `Io` and `Utf8` variants wrap a foreign error whose own text is opaque, so
/// for them only a fixed prefix is stated (and this function returns empty).
pub open spec fn error_text(e: SexpfmtError) -> Seq<char> {
    match e {
        SexpfmtError::Io { .. } => Seq::empty(),
        SexpfmtError::Utf8 { .. } => Seq::empty(),
        SexpfmtError::FormReader { message, position } => match position {
            Some(l) => "Form reader error at "@ + loc_text(l) + ": "@ + message@,
            None => "Form reader error: "@ + message@,
        },
        SexpfmtError::Parse { message, position } => "Parse error at "@ + loc_text(position)
            + ": "@ + message@,
        SexpfmtError::MismatchedBookends { position, got, expected } => "Mismatched bookends at "@ + loc_text(
            position,
        ) + ": got "@ + style_text(got) + ", expected "@ + style_text(expected),
        SexpfmtError::UnexpectedEof { position, unclosed_count } => "Unexpected EOF at "@
            + loc_text(position) + ": "@ + dec_digits(unclosed_count as nat)
            + " unclosed bookends"@,
        SexpfmtError::InvalidInput { message, position } => "Invalid input at "@ + loc_text(
            position,
        ) + ": "@ + message@,
    }
}

/// Appends the decimal rendering of `n`.
pub fn push_decimal(out: &mut String, n: usize)
    ensures
        final(out)@ == old(out)@ + dec_digits(n as nat),
    decreases n,
{
    if n < 10 {
        push_digit(out, n);
    } else {
        push_decimal(out, n / 10);
        push_digit(out, n % 10);
        proof {
            assert(old(out)@ + dec_digits((n / 10) as nat) + seq![
                digit_char((n % 10) as nat),
            ] =~= old(out)@ + dec_digits(n as nat));
        }
    }
}

fn push_digit(out: &mut String, d: usize)
    requires
        d < 10,
    ensures
        final(out)@ == old(out)@ + seq![digit_char(d as nat)],
{
    proof {
        reveal_strlit("0");
        reveal_strlit("1");
        reveal_strlit("2");
        reveal_strlit("3");
        reveal_strlit("4");
        reveal_strlit("5");
        reveal_strlit("6");
        reveal_strlit("7");
        reveal_strlit("8");
        reveal_strlit("9");
    }
    if d == 0 {
        out.append("0");
    } else if d == 1 {
        out.append("1");
    } else if d == 2 {
        out.append("2");
    } else if d == 3 {
        out.append("3");
    } else if d == 4 {
        out.append("4");
    } else if d == 5 {
        out.append("5");
    } else if d == 6 {
        out.append("6");
    } else if d == 7 {
        out.append("7");
    } else if d == 8 {
        out.append("8");
    } else {
        out.append("9");
    }
    proof {
        assert(out@ =~= old(out)@ + seq![digit_char(d as nat)]);
    }
}

/// Appends the display text of a position.
pub fn push_loc(out: &mut String, l: Loc)
    ensures
        final(out)@ == old(out)@ + loc_text(l),
{
    out.append("line ");
    push_decimal(out, l.line);
    out.append(", column ");
    push_decimal(out, l.column);
    out.append(" (offset ");
    push_decimal(out, l.offset);
    out.append(")");
    proof {
        assert(out@ =~= old(out)@ + loc_text(l));
    }
}

/// Appends the display text of a bookend style.
pub fn push_style(out: &mut String, st: SExpBookendStyle)
    ensures
        final(out)@ == old(out)@ + style_text(st),
{
    match st {
        SExpBookendStyle::Parentheses => out.append("Parentheses"),
        SExpBookendStyle::SquareBrackets => out.append("SquareBrackets"),
        SExpBookendStyle::CurlyBraces => out.append("CurlyBraces"),
    }
}

} // verus!
