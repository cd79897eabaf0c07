use vstd::prelude::*;

verus! {

/// Every way a decode can fail. No kind carries a source position.
#[derive(Clone, Debug, PartialEq)]
pub enum Error {
    Eof,
    Syntax,
    ExpectedArray,
    ExpectedArrayComma,
    ExpectedArrayEnd,
    ExpectedBoolean,
    ExpectedEnum,
    ExpectedChar,
    ExpectedFloat,
    ExpectedInteger,
    ExpectedOption,
    ExpectedOptionEnd,
    ExpectedMap,
    ExpectedMapColon,
    ExpectedMapComma,
    ExpectedMapEnd,
    ExpectedStruct,
    ExpectedStructEnd,
    ExpectedUnit,
    ExpectedStructName,
    ExpectedString,
    ExpectedIdentifier,
    InvalidEscape,
    /// A custom error raised by the caller.
    Message(String),
    TrailingCharacters,
}

pub type Result<T> = core::result::Result<T, Error>;

impl Error {
    /// Builds the free-text error kind.
    pub fn custom(msg: String) -> (r: Error)
        ensures
            r == Error::Message(msg),
    {
        Error::Message(msg)
    }
}

} // verus!
