//! A codec for the bencode serialization format: a cursor-based decoder from
//! bytes to a value tree and an encoder back, both proved against a
//! mathematical model of the grammar.

pub mod bdecode;
pub mod bencode;
pub mod bytestring;
pub mod error;
pub mod grammar;
pub mod laws;
pub mod value;

pub use bdecode::{decode, BDecoder};
pub use bencode::encode;
pub use bytestring::{ByteString, ToByteString};
pub use error::DecodingError;
pub use value::{BEncodingType, Dictionary, Term};
