use vstd::prelude::*;

verus! {

/// The errors of a data format's serializer and deserializer.
#[derive(Debug)]
pub enum Error {
    Message(String),
    Eof,
    Syntax,
    ExpectedBoolean,
    ExpectedInteger,
    ExpectedString,
    ExpectedNull,
    ExpectedArray,
    ExpectedArrayComma,
    ExpectedArrayEnd,
    ExpectedMap,
    ExpectedMapColon,
    ExpectedMapComma,
    ExpectedMapEnd,
    ExpectedEnum,
    TrailingCharacters,
}

pub type Result<T> = std::result::Result<T, Error>;

impl Error {
    /// The message of an error: a custom error's own message, or the
    /// description of an unexpected end of input. No other error has a
    /// message yet.
    pub fn to_string(&self) -> (s: String)
        requires
            self is Message || self is Eof,
        ensures
            match self {
                Error::Message(msg) => s@ == msg@,
                _ => s@ == "unexpected end of input"@,
            },
    {
        match self {
            Error::Message(msg) => msg.clone(),
            _ => "unexpected end of input".to_owned(),
        }
    }
}

} // verus!
