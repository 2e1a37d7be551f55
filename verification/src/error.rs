//! The error value handed to callers when a pattern cannot be processed.

use vstd::prelude::*;

verus! {

/// Why a pattern failed to compile.
#[derive(Debug)]
pub enum ParseError {
    /// The pattern ends right after an unaccompanied backslash.
    BareEscape,
    /// The pattern ends inside an unterminated `[...]` character class.
    UnclosedClass,
    /// The pattern ends inside an unterminated `{...}` alternation.
    UnclosedAlternation,
    /// A class range runs backwards: its end sorts before its start.
    ReversedRange(char, char),
    /// A completed class range is followed by a dash that would start
    /// another range.
    RangeAfterRange(char, char),
    /// The construct is recognized but not supported: an escape as the
    /// end of a class range, or a class nested within an alternation.
    NotImplemented,
    /// The generated expression was rejected by the regular-expression
    /// engine; carries the expression and the engine's message.
    InvalidRegex(String, String),
}

/// The text a failure kind is reported with.  An engine rejection is
/// reported with the engine's own message.
pub open spec fn parse_error_text(e: ParseError) -> Seq<char> {
    match e {
        ParseError::BareEscape => "bare escape at the end of the pattern"@,
        ParseError::UnclosedClass => "unclosed character class"@,
        ParseError::UnclosedAlternation => "unclosed alternation"@,
        ParseError::ReversedRange(_, _) => "reversed character range"@,
        ParseError::RangeAfterRange(_, _) => "range following a range"@,
        ParseError::NotImplemented => "construct not implemented"@,
        ParseError::InvalidRegex(_, msg) => msg@,
    }
}

impl ParseError {
    /// The failure rendered as text.
    pub fn message(&self) -> (r: String)
        ensures
            r@ == parse_error_text(*self),
    {
        match self {
            ParseError::BareEscape => "bare escape at the end of the pattern".to_owned(),
            ParseError::UnclosedClass => "unclosed character class".to_owned(),
            ParseError::UnclosedAlternation => "unclosed alternation".to_owned(),
            ParseError::ReversedRange(_, _) => "reversed character range".to_owned(),
            ParseError::RangeAfterRange(_, _) => "range following a range".to_owned(),
            ParseError::NotImplemented => "construct not implemented".to_owned(),
            ParseError::InvalidRegex(_, msg) => msg.clone(),
        }
    }

    /// The failure as an error value carrying the rendered text.
    pub fn to_error(&self) -> (r: Error)
        ensures
            r@ == parse_error_text(*self),
    {
        Error::new(self.message())
    }
}

/// An error that occurred during the processing of a pattern.
#[derive(Debug)]
pub struct Error {
    /// The error message.
    msg: String,
}

impl View for Error {
    type V = Seq<char>;

    closed spec fn view(&self) -> Seq<char> {
        self.msg@
    }
}

impl Error {
    /// Return an error with the specified message.
    pub fn new(msg: String) -> (r: Self)
        ensures
            r@ == msg@,
    {
        Self { msg }
    }

    /// Return a boxed error with the specified message.
    pub fn boxed(msg: String) -> (r: Box<Self>)
        ensures
            r@ == msg@,
    {
        Box::new(Self { msg })
    }

    /// Return the message carried by the error.
    pub fn message(&self) -> (r: &String)
        ensures
            r@ == self@,
    {
        &self.msg
    }
}

/// Report an error that occurred during the parsing of a pattern.
pub fn parse_error(msg: String) -> (r: Box<Error>)
    ensures
        r@ == msg@,
{
    Error::boxed(msg)
}

} // verus!
