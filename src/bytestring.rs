use vstd::prelude::*;
use vstd::string::StringSliceAdditionalSpecFns;

verus! {

/// A binary-safe byte sequence, used for every string value and every
/// dictionary key. Equality and hashing go by the raw bytes.
#[derive(Debug, Clone, PartialEq, Eq, Hash)]
pub struct ByteString(pub Vec<u8>);

impl View for ByteString {
    type V = Seq<u8>;

    open spec fn view(&self) -> Seq<u8> {
        self.0@
    }
}

/// The text of a byte sequence with each invalid UTF-8 sequence replaced by
/// U+FFFD.
pub uninterp spec fn lossy_text(b: Seq<u8>) -> Seq<char>;

/// Relies on `String::from_utf8_lossy`: the text depends on the bytes alone.
#[verifier::external_body]
fn lossy_string(b: &[u8]) -> (r: String)
    ensures
        r@ == lossy_text(b@),
{
    String::from_utf8_lossy(b).into_owned()
}

impl ByteString {
    /// A text rendering for diagnostics; invalid UTF-8 is replaced, never
    /// refused.
    pub fn to_lossy_string(&self) -> (r: String)
        ensures
            r@ == lossy_text(self@),
    {
        lossy_string(self.0.as_slice())
    }
}

/// Conversion of a borrowed text or byte slice into an owned `ByteString`.
pub trait ToByteString {
    /// The bytes that the conversion copies.
    spec fn source_bytes(&self) -> Seq<u8>;

    fn to_byte_string(&self) -> (r: ByteString)
        ensures
            r@ == self.source_bytes(),
    ;
}

impl ToByteString for &str {
    open spec fn source_bytes(&self) -> Seq<u8> {
        (*self).spec_bytes()
    }

    fn to_byte_string(&self) -> (r: ByteString) {
        ByteString(vstd::slice::slice_to_vec(self.as_bytes()))
    }
}

impl ToByteString for &[u8] {
    open spec fn source_bytes(&self) -> Seq<u8> {
        (*self)@
    }

    fn to_byte_string(&self) -> (r: ByteString) {
        ByteString(vstd::slice::slice_to_vec(*self))
    }
}

} // verus!
