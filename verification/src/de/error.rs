//! The error that decoding reports, and its mathematical view.
use vstd::prelude::*;

verus! {

/// What went wrong while decoding. Snippets are the first bytes of the
/// decoder's buffer at the time of the error, read as UTF-8.
#[derive(Debug)]
pub enum ErrorKind {
    /// The input ended where more was required.
    UnexpectedEnd,
    /// The input ends here for now, and the stream may deliver more.
    NeedMore,
    /// The input stream reported an error of its own.
    Source(String),
    /// A snippet of the buffer that was to be quoted was not valid UTF-8.
    InvalidUtf8,
    /// A delimiter other than the expected one: found, expected, snippet.
    UnexpectedDelimiter(u8, u8, String),
    /// Neither `true` nor `false` where a boolean was required.
    InvalidBool(String),
    /// Not `null` where a unit was required.
    InvalidUnit(String),
    /// No JSON value starts here.
    InvalidAny(String),
    /// A number token that is not an integer in the requested range.
    InvalidInteger(Vec<u8>),
    /// Content follows the decoded value.
    TrailingContent(String),
    /// A map value was requested after the end of the map.
    MapEnded,
    /// An element of an array could not be read: the message of why, and
    /// a snippet of the buffer where it is valid UTF-8.
    ArrayElement(String, Option<String>),
    /// A byte that starts no JSON value, met while skipping a value.
    UnexpectedToken(u8),
    /// A control character inside a string.
    ControlCharacter(u8),
    /// An escape sequence other than the ones JSON defines.
    InvalidEscape,
    /// A `\u` escape whose four characters are not all hex digits.
    InvalidHexEscape,
    /// A `\u` escape of half of a surrogate pair without the other half.
    LoneSurrogate,
    /// A byte other than the expected one: found, expected.
    UnexpectedChar(u8, u8),
    /// A number that starts with `0` followed by another digit.
    LeadingZero,
    /// A number that does not start with a digit; carries the next byte, or 0 at the end.
    InvalidNumber(u8),
    /// A decimal point not followed by a digit.
    MissingFractionDigit,
    /// An exponent not followed by a digit; carries the byte found, or 0 at the end.
    MissingExponentDigit(u8),
    /// A message from the caller.
    Custom(String),
}

/// An error encountered while decoding a JSON stream.
#[derive(Debug)]
pub struct Error {
    kind: ErrorKind,
}

/// The mathematical view of an [`ErrorKind`]: strings are taken as their characters.
pub enum ErrorView {
    UnexpectedEnd,
    NeedMore,
    Source(Seq<char>),
    InvalidUtf8,
    UnexpectedDelimiter(u8, u8, Seq<char>),
    InvalidBool(Seq<char>),
    InvalidUnit(Seq<char>),
    InvalidAny(Seq<char>),
    InvalidInteger(Seq<u8>),
    TrailingContent(Seq<char>),
    MapEnded,
    ArrayElement(Seq<char>, Option<Seq<char>>),
    UnexpectedToken(u8),
    ControlCharacter(u8),
    InvalidEscape,
    InvalidHexEscape,
    LoneSurrogate,
    UnexpectedChar(u8, u8),
    LeadingZero,
    InvalidNumber(u8),
    MissingFractionDigit,
    MissingExponentDigit(u8),
    Custom(Seq<char>),
}

impl View for ErrorKind {
    type V = ErrorView;

    open spec fn view(&self) -> ErrorView {
        match self {
            ErrorKind::UnexpectedEnd => ErrorView::UnexpectedEnd,
            ErrorKind::NeedMore => ErrorView::NeedMore,
            ErrorKind::Source(m) => ErrorView::Source(m@),
            ErrorKind::InvalidUtf8 => ErrorView::InvalidUtf8,
            ErrorKind::UnexpectedDelimiter(f, e, s) => ErrorView::UnexpectedDelimiter(*f, *e, s@),
            ErrorKind::InvalidBool(s) => ErrorView::InvalidBool(s@),
            ErrorKind::InvalidUnit(s) => ErrorView::InvalidUnit(s@),
            ErrorKind::InvalidAny(s) => ErrorView::InvalidAny(s@),
            ErrorKind::InvalidInteger(t) => ErrorView::InvalidInteger(t@),
            ErrorKind::TrailingContent(s) => ErrorView::TrailingContent(s@),
            ErrorKind::MapEnded => ErrorView::MapEnded,
            ErrorKind::ArrayElement(m, s) => ErrorView::ArrayElement(
                m@,
                match s {
                    Some(t) => Some(t@),
                    None => None,
                },
            ),
            ErrorKind::UnexpectedToken(b) => ErrorView::UnexpectedToken(*b),
            ErrorKind::ControlCharacter(b) => ErrorView::ControlCharacter(*b),
            ErrorKind::InvalidEscape => ErrorView::InvalidEscape,
            ErrorKind::InvalidHexEscape => ErrorView::InvalidHexEscape,
            ErrorKind::LoneSurrogate => ErrorView::LoneSurrogate,
            ErrorKind::UnexpectedChar(f, e) => ErrorView::UnexpectedChar(*f, *e),
            ErrorKind::LeadingZero => ErrorView::LeadingZero,
            ErrorKind::InvalidNumber(b) => ErrorView::InvalidNumber(*b),
            ErrorKind::MissingFractionDigit => ErrorView::MissingFractionDigit,
            ErrorKind::MissingExponentDigit(b) => ErrorView::MissingExponentDigit(*b),
            ErrorKind::Custom(m) => ErrorView::Custom(m@),
        }
    }
}

impl View for Error {
    type V = ErrorView;

    closed spec fn view(&self) -> ErrorView {
        self.kind@
    }
}

impl Error {
    /// An error of the given kind.
    pub fn new(kind: ErrorKind) -> (e: Error)
        ensures
            e@ == kind@,
    {
        Error { kind }
    }

    /// An error that carries the caller's message.
    pub fn custom(message: String) -> (e: Error)
        ensures
            e@ == ErrorView::Custom(message@),
    {
        Error { kind: ErrorKind::Custom(message) }
    }

    /// What went wrong.
    pub fn kind(&self) -> (k: &ErrorKind)
        ensures
            k@ == self@,
    {
        &self.kind
    }

    /// Gives up the error, handing back what went wrong.
    pub fn into_kind(self) -> (k: ErrorKind)
        ensures
            k@ == self@,
    {
        self.kind
    }
}

/// Lifts a result to the view of its error.
pub open spec fn view_result<V>(r: Result<V, Error>) -> Result<V, ErrorView> {
    match r {
        Ok(v) => Ok(v),
        Err(e) => Err(e@),
    }
}

} // verus!
