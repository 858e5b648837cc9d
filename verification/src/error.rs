//! Error values of the library.

use vstd::prelude::*;
use vstd::string::*;

verus! {

/// Why a byte stream could not be framed as an HTTP request.
#[derive(Clone, Copy, Debug, PartialEq, Eq, Structural)]
pub enum FramingError {
    /// The first line does not consist of exactly three fields separated by
    /// single spaces.
    MalformedRequestLine,
    /// The third field of the first line is not `HTTP/` followed by a
    /// decimal floating-point number.
    MalformedVersion,
    /// A body-bearing request carries a `content-length` that is not a
    /// non-negative integer of machine size.
    MalformedContentLength,
    /// The source did not deliver text: a line holds bytes that are not
    /// valid UTF-8.
    Io,
}

/// An error that carries nothing but a description.
pub struct SimpleError {
    description: String,
}

/// The fixed text that starts every rendered `SimpleError`.
pub open spec fn error_prefix() -> Seq<char> {
    seq!['E', 'r', 'r', 'o', 'r', ':', ' ']
}

impl View for SimpleError {
    type V = Seq<char>;

    closed spec fn view(&self) -> Seq<char> {
        self.description@
    }
}

impl SimpleError {
    /// Makes an error out of its description.
    pub fn new(description: String) -> (e: SimpleError)
        ensures
            e@ == description@,
    {
        SimpleError { description }
    }

    /// The description that the error was made of.
    pub fn description(&self) -> (d: &str)
        ensures
            d@ == self@,
    {
        self.description.as_str()
    }

    /// The error as text: `Error: ` followed by the description.
    pub fn message(&self) -> (m: String)
        ensures
            m@ == error_prefix() + self@,
    {
        proof {
            reveal_strlit("Error: ");
        }
        let prefix = String::from_str("Error: ");
        assert(prefix@ =~= error_prefix());
        prefix.concat(self.description.as_str())
    }
}

} // verus!
