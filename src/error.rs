use vstd::prelude::*;

use vstd::string::StringExecFns;

use crate::bytestring::{lossy_text, ByteString};

verus! {

/// The ways in which decoding can fail.
#[derive(Debug, Clone, PartialEq, Eq)]
pub enum DecodingError {
    /// The next byte was not the grammar literal that had to come next.
    MissingIdentifier(char),
    /// A dictionary key was read, but the value after it could not be.
    KeyWithoutValue(ByteString),
    /// A byte string's length prefix could not be read as a number.
    StringWithoutLength,
    /// A digit was expected and something else was found.
    NotANumber,
    /// The input ended before a production was complete.
    EndOfFile,
    /// An integer was written as `-0`.
    NegativeZero,
    /// A byte string's length prefix was negative.
    NegativeStringLen,
}

/// The mathematical model of a `DecodingError`.
pub enum Fault {
    MissingIdentifier(char),
    KeyWithoutValue(Seq<u8>),
    StringWithoutLength,
    NotANumber,
    EndOfFile,
    NegativeZero,
    NegativeStringLen,
}

impl View for DecodingError {
    type V = Fault;

    open spec fn view(&self) -> Fault {
        match self {
            DecodingError::MissingIdentifier(c) => Fault::MissingIdentifier(*c),
            DecodingError::KeyWithoutValue(k) => Fault::KeyWithoutValue(k@),
            DecodingError::StringWithoutLength => Fault::StringWithoutLength,
            DecodingError::NotANumber => Fault::NotANumber,
            DecodingError::EndOfFile => Fault::EndOfFile,
            DecodingError::NegativeZero => Fault::NegativeZero,
            DecodingError::NegativeStringLen => Fault::NegativeStringLen,
        }
    }
}

/// The human-readable text of each failure.
pub open spec fn message_text(f: Fault) -> Seq<char> {
    match f {
        Fault::MissingIdentifier(c) => "Expected identifier '"@ + seq![c] + "'"@,
        Fault::KeyWithoutValue(k) => "Dictionary key '"@ + lossy_text(k) + "' without value"@,
        Fault::EndOfFile => "Unexpected end of file"@,
        Fault::StringWithoutLength => "Expected string length"@,
        Fault::NotANumber => "Expected a number but "@,
        Fault::NegativeZero => "Negative zero is not allowed. Use 0 instead"@,
        Fault::NegativeStringLen => "Negative string length is not allowed"@,
    }
}

/// Relies on `String::push`: the character is appended.
#[verifier::external_body]
fn push_char(s: &mut String, c: char)
    ensures
        final(s)@ == old(s)@.push(c),
{
    s.push(c)
}

impl DecodingError {
    /// A human-readable rendering for logs.
    pub fn message(&self) -> (r: String)
        ensures
            r@ == message_text(self@),
    {
        match self {
            DecodingError::MissingIdentifier(c) => {
                let mut s = String::from_str("Expected identifier '");
                push_char(&mut s, *c);
                s.append("'");
                s
            },
            DecodingError::KeyWithoutValue(k) => {
                let mut s = String::from_str("Dictionary key '");
                let key = k.to_lossy_string();
                s.append(key.as_str());
                s.append("' without value");
                s
            },
            DecodingError::EndOfFile => String::from_str("Unexpected end of file"),
            DecodingError::StringWithoutLength => String::from_str("Expected string length"),
            DecodingError::NotANumber => String::from_str("Expected a number but "),
            DecodingError::NegativeZero => String::from_str(
                "Negative zero is not allowed. Use 0 instead",
            ),
            DecodingError::NegativeStringLen => String::from_str(
                "Negative string length is not allowed",
            ),
        }
    }
}

} // verus!
