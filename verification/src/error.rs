//! Errors produced while parsing or writing config files.

use vstd::prelude::*;
use crate::text::{push_char, push_str};

verus! {

/// The kind of problem found in a config file.
#[derive(Debug, Clone, Copy, PartialEq, Eq, Structural)]
pub enum ErrorKind {
    /// A line was neither a section header nor a `key = value` pair.
    Parse,
    /// A section header's nesting depth could not be made sense of.
    Nesting,
    /// A section or key was defined twice within the same parent.
    Duplicate,
    /// A value could not be represented in the config file format.
    Unwritable,
}

/// A single problem found at a specific line of a config file.
///
/// `line_number` is 1-based, matching the numbering people see in an editor.
#[derive(Debug, Clone, PartialEq, Eq)]
pub struct ParseError {
    /// What sort of problem this is.
    pub kind: ErrorKind,
    /// Human-readable description, without the line number.
    pub message: String,
    /// 1-based line number the problem was found on.
    pub line_number: usize,
    /// The offending line, as it appeared in the input.
    pub line: String,
}

/// What a parse error says, as text.
pub struct ErrorModel {
    pub kind: ErrorKind,
    pub message: Seq<char>,
    pub line_number: nat,
    pub line: Seq<char>,
}

impl View for ParseError {
    type V = ErrorModel;

    open spec fn view(&self) -> ErrorModel {
        ErrorModel {
            kind: self.kind,
            message: self.message@,
            line_number: self.line_number as nat,
            line: self.line@,
        }
    }
}

/// The error type for reading and writing config files.
#[derive(Debug)]
pub enum Error {
    /// One or more lines could not be parsed.
    ///
    /// Parsing continues past a bad line, so this may carry several errors.
    /// The first one is the most useful in a message to the user.
    Parse(Vec<ParseError>),
    /// A value could not be safely represented in the file format.
    Unwritable(String),
    /// The underlying file could not be read or written.
    Io(std::io::Error),
    /// The input was not valid text in the expected encoding.
    Encoding(String),
}

/// The standard library's I/O error, carried through unexamined.
#[verifier::external_type_specification]
#[verifier::external_body]
pub struct ExIoError(std::io::Error);

/// The decimal digit for `d`.
pub open spec fn digit(d: nat) -> char {
    (('0' as u32) + d) as char
}

/// `n` written in decimal, without leading zeros.
pub open spec fn decimal(n: nat) -> Seq<char>
    decreases n,
{
    if n < 10 {
        seq![digit(n)]
    } else {
        decimal(n / 10).push(digit(n % 10))
    }
}

/// Append `n` in decimal to a string.
pub fn push_decimal(s: &mut String, n: usize)
    ensures
        final(s)@ == old(s)@ + decimal(n as nat),
    decreases n,
{
    if n >= 10 {
        push_decimal(s, n / 10);
    }
    let d: u32 = (n % 10) as u32;
    let c = digit_char(d);
    push_char(s, c);
    proof {
        if n < 10 {
            assert(decimal(n as nat) == seq![digit(n as nat)]);
        }
    }
}

/// Append a 64-bit number in decimal to a string.
pub fn push_decimal_u64(s: &mut String, n: u64)
    ensures
        final(s)@ == old(s)@ + decimal(n as nat),
    decreases n,
{
    if n >= 10 {
        push_decimal_u64(s, n / 10);
    }
    let d: u32 = (n % 10) as u32;
    let c = digit_char(d);
    push_char(s, c);
    proof {
        if n < 10 {
            assert(decimal(n as nat) == seq![digit(n as nat)]);
        }
    }
}

/// The character for a decimal digit.
fn digit_char(d: u32) -> (c: char)
    requires
        d < 10,
    ensures
        c == digit(d as nat),
{
    let b: u8 = 48u8 + (d as u8);
    b as char
}

/// What `{:?}` renders text as: quoted, with escapes.
pub uninterp spec fn debug_text(s: Seq<char>) -> Seq<char>;

/// Render text the way `format!("{:?}", s)` does.
///
/// The standard library's `Debug` for `str` quotes the text and escapes
/// characters that are not printable; the rules for which those are follow
/// the Unicode tables, so the result is given a name rather than spelled out.
#[verifier::external_body]
pub(crate) fn debug_string(s: &str) -> (r: String)
    ensures
        r@ == debug_text(s@),
{
    format!("{:?}", s)
}

/// The text of an I/O error, as its `Display` renders it.
///
/// That text can come from the operating system, so nothing is claimed of it.
#[verifier::external_body]
fn io_error_text(e: &std::io::Error) -> String {
    format!("{}", e)
}

/// The message for a single parse error: its text and where it was found.
pub open spec fn parse_error_text(e: ParseError) -> Seq<char> {
    e.message@ + " at line "@ + decimal(e.line_number as nat)
}

impl ParseError {
    /// The message shown for this error, such as `Duplicate keyword name "a"
    /// at line 2`.
    pub fn describe(&self) -> (r: String)
        ensures
            r@ == parse_error_text(*self),
    {
        let mut r = self.message.clone();
        push_str(&mut r, " at line ");
        push_decimal(&mut r, self.line_number);
        r
    }
}

impl Error {
    /// The individual line errors, if this is a parse failure.
    pub fn parse_errors(&self) -> (r: &[ParseError])
        ensures
            match self {
                Error::Parse(errors) => r@ == errors@,
                _ => r@.len() == 0,
            },
    {
        match self {
            Error::Parse(errors) => errors.as_slice(),
            _ => &[],
        }
    }

    /// The 1-based line number of the first problem, if there is one.
    pub fn line_number(&self) -> (r: Option<usize>)
        ensures
            match self {
                Error::Parse(errors) => if errors@.len() > 0 {
                    r == Some(errors@[0].line_number)
                } else {
                    r is None
                },
                _ => r is None,
            },
    {
        let errors = self.parse_errors();
        if errors.len() > 0 {
            Some(errors[0].line_number)
        } else {
            None
        }
    }

    /// The message shown for this error.
    ///
    /// A parse failure shows its first error, noting how many more there are;
    /// an unwritable value is shown quoted.
    pub fn describe(&self) -> (r: String)
        ensures
            match self {
                Error::Parse(errors) => r@ == if errors@.len() == 0 {
                    "parse error"@
                } else if errors@.len() == 1 {
                    parse_error_text(errors@[0])
                } else {
                    parse_error_text(errors@[0]) + " (and "@ + decimal((errors@.len() - 1) as nat)
                        + " more error(s))"@
                },
                Error::Unwritable(v) => r@ == "value "@ + debug_text(v@) + " cannot be safely quoted"@,
                Error::Encoding(e) => r@ == e@,
                Error::Io(_) => true,
            },
    {
        match self {
            Error::Parse(errors) => {
                if errors.len() == 0 {
                    let mut r = String::new();
                    push_str(&mut r, "parse error");
                    r
                } else if errors.len() == 1 {
                    errors[0].describe()
                } else {
                    let mut r = errors[0].describe();
                    push_str(&mut r, " (and ");
                    push_decimal(&mut r, errors.len() - 1);
                    push_str(&mut r, " more error(s))");
                    r
                }
            },
            Error::Unwritable(v) => {
                let mut r = String::new();
                push_str(&mut r, "value ");
                let d = debug_string(v.as_str());
                push_str(&mut r, d.as_str());
                push_str(&mut r, " cannot be safely quoted");
                r
            },
            Error::Io(e) => io_error_text(e),
            Error::Encoding(e) => e.clone(),
        }
    }
}

/// A parse error of the given kind found on a line.
pub fn parse_error(kind: ErrorKind, message: String, line_number: usize, line: &str) -> (e:
    ParseError)
    ensures
        e.kind == kind,
        e.message@ == message@,
        e.line_number == line_number,
        e.line@ == line@,
{
    let mut l = String::new();
    push_str(&mut l, line);
    ParseError { kind, message, line_number, line: l }
}

} // verus!
