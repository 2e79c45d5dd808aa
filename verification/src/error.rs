//! The errors the library reports, and how they read.
use vstd::prelude::*;
use vstd::string::*;

verus! {

#[verifier::external_type_specification]
#[verifier::external_body]
pub struct ExIoError(std::io::Error);

/// The errors that the library reports.
#[derive(Debug, Clone)]
pub enum Git5Error {
    NotARepository(String),
    ObjectNotFound(String),
    InvalidObject(String),
    InvalidRef(String),
    Conflict(String),
    IoError(String),
    ParseError(String),
}

/// The human-readable text of an error: a fixed prefix for each kind
/// followed by the detail it carries.
pub open spec fn error_text(e: Git5Error) -> Seq<char> {
    match e {
        Git5Error::NotARepository(p) => "Not a git5 repository: "@ + p@,
        Git5Error::ObjectNotFound(h) => "Object not found: "@ + h@,
        Git5Error::InvalidObject(m) => "Invalid object: "@ + m@,
        Git5Error::InvalidRef(n) => "Invalid reference: "@ + n@,
        Git5Error::Conflict(m) => "Conflict: "@ + m@,
        Git5Error::IoError(m) => "IO error: "@ + m@,
        Git5Error::ParseError(m) => "Parse error: "@ + m@,
    }
}

impl Git5Error {
    /// The message shown to the user for this error.
    pub fn message(&self) -> (res: String)
        ensures
            res@ == error_text(*self),
    {
        let (prefix, detail) = match self {
            Git5Error::NotARepository(p) => ("Not a git5 repository: ", p),
            Git5Error::ObjectNotFound(h) => ("Object not found: ", h),
            Git5Error::InvalidObject(m) => ("Invalid object: ", m),
            Git5Error::InvalidRef(n) => ("Invalid reference: ", n),
            Git5Error::Conflict(m) => ("Conflict: ", m),
            Git5Error::IoError(m) => ("IO error: ", m),
            Git5Error::ParseError(m) => ("Parse error: ", m),
        };
        let mut res = String::from_str(prefix);
        res.append(detail.as_str());
        res
    }
}

/// The text of an I/O error, as `std::io::Error`'s `to_string` gives it.
/// What the text reads is not stated.
#[verifier::external_body]
fn io_error_text(err: &std::io::Error) -> String {
    err.to_string()
}

impl From<std::io::Error> for Git5Error {
    fn from(err: std::io::Error) -> (res: Self)
        ensures
            res is IoError,
    {
        Git5Error::IoError(io_error_text(&err))
    }
}

impl vstd::std_specs::convert::FromSpecImpl<std::io::Error> for Git5Error {
    open spec fn obeys_from_spec() -> bool {
        false
    }

    open spec fn from_spec(v: std::io::Error) -> Self {
        vstd::pervasive::arbitrary()
    }
}

impl From<hex::FromHexError> for Git5Error {
    /// A hex decoding error becomes a parse error: `Invalid hex: ` and the
    /// error's own message.
    fn from(err: hex::FromHexError) -> (res: Self)
        ensures
            res matches Git5Error::ParseError(m) && "Invalid hex: "@.is_prefix_of(m@),
    {
        let mut m = String::from_str("Invalid hex: ");
        let detail = crate::codec::hex_error_text(&err);
        m.append(detail.as_str());
        Git5Error::ParseError(m)
    }
}

impl vstd::std_specs::convert::FromSpecImpl<hex::FromHexError> for Git5Error {
    open spec fn obeys_from_spec() -> bool {
        false
    }

    open spec fn from_spec(v: hex::FromHexError) -> Self {
        vstd::pervasive::arbitrary()
    }
}

} // verus!
