//! The error type of the engine.
use vstd::prelude::*;

verus! {

/// What went wrong, as the message shown to the user.
pub enum Error {
    /// A message raised by the engine itself.
    Msg(String),
    /// The SQL text was refused by the parser, with the parser's own words.
    SqlParse(String),
}

impl View for Error {
    type V = Seq<char>;

    open spec fn view(&self) -> Seq<char> {
        match self {
            Error::Msg(s) => s@,
            Error::SqlParse(s) => s@,
        }
    }
}

impl Error {
    /// An engine error with the given message.
    pub fn msg(s: &str) -> (e: Error)
        ensures
            e is Msg,
            e@ == s@,
    {
        Error::Msg(String::from_str(s))
    }

    /// The message of the error.
    pub fn message(&self) -> (s: &str)
        ensures
            s@ == self@,
    {
        match self {
            Error::Msg(s) => s.as_str(),
            Error::SqlParse(s) => s.as_str(),
        }
    }
}

/// The result is a success with this value.
pub open spec fn yields<T>(r: Result<T, Seq<char>>, v: T) -> bool {
    r == Ok::<T, Seq<char>>(v)
}

/// The result is a failure with this message.
pub open spec fn fails<T>(r: Result<T, Seq<char>>, m: Seq<char>) -> bool {
    r == Err::<T, Seq<char>>(m)
}

/// A result with its error reduced to the message, for use in contracts.
pub open spec fn outcome<T>(r: Result<T, Error>) -> Result<T, Seq<char>> {
    match r {
        Ok(v) => Ok(v),
        Err(e) => Err(e@),
    }
}

/// As [`outcome`], for results that carry text.
pub open spec fn text_outcome(r: Result<String, Error>) -> Result<Seq<char>, Seq<char>> {
    match r {
        Ok(v) => Ok(v@),
        Err(e) => Err(e@),
    }
}

} // verus!
