use vstd::prelude::*;

use crate::bytestring::ByteString;
use crate::error::{DecodingError, Fault};
use crate::grammar::{
    decode_spec, digit_run, expect_byte, fold_digits, parse_dict,
    parse_entries, parse_int, parse_items, parse_list, parse_str, parse_value, read_num,
    COLON, DICT_START, END, INT_START, LIST_START, MINUS, ZERO,
};
use crate::laws::lemma_decoded_well_formed;
use crate::value::{view_items, well_formed, BEncodingType, Dictionary, Term};

verus! {

/// The model of a decoder method's result.
pub open spec fn outcome<T: View>(r: Result<T, DecodingError>) -> Result<T::V, Fault> {
    match r {
        Ok(t) => Ok(t@),
        Err(e) => Err(e@),
    }
}

/// The model of a list production's result.
pub open spec fn list_outcome(r: Result<Vec<BEncodingType>, DecodingError>) -> Result<
    Seq<Term>,
    Fault,
> {
    match r {
        Ok(items) => Ok(view_items(items@)),
        Err(e) => Err(e@),
    }
}

/// A cursor over a borrowed input; each parse method reads one production
/// from the cursor and leaves the cursor where that production stopped.
pub struct BDecoder<'a> {
    bytes: &'a [u8],
    cursor: usize,
}

impl<'a> BDecoder<'a> {
    /// The bytes being decoded.
    pub closed spec fn input(&self) -> Seq<u8> {
        self.bytes@
    }

    /// The read offset.
    pub closed spec fn pos(&self) -> int {
        self.cursor as int
    }

    /// The offset lies within the input or at its end.
    pub open spec fn wf(&self) -> bool {
        0 <= self.pos() <= self.input().len()
    }

    pub fn new(bytes: &'a [u8]) -> (r: BDecoder<'a>)
        ensures
            r.wf(),
            r.input() == bytes@,
            r.pos() == 0,
    {
        BDecoder { bytes, cursor: 0 }
    }

    pub fn cursor(&self) -> (r: usize)
        ensures
            r == self.pos(),
    {
        self.cursor
    }

    /// The next byte, if any, without consuming it.
    pub fn peek(&self) -> (r: Option<u8>)
        requires
            self.wf(),
        ensures
            r == (if self.pos() < self.input().len() {
                Some(self.input()[self.pos()])
            } else {
                None::<u8>
            }),
    {
        if self.cursor < self.bytes.len() {
            Some(self.bytes[self.cursor])
        } else {
            None
        }
    }

    /// Consumes the next byte; at the end of the input nothing moves.
    pub fn advance(&mut self) -> (r: Result<u8, DecodingError>)
        requires
            old(self).wf(),
        ensures
            final(self).wf(),
            final(self).input() == old(self).input(),
            old(self).pos() < old(self).input().len() ==> r == Ok::<u8, DecodingError>(
                old(self).input()[old(self).pos()],
            ) && final(self).pos() == old(self).pos() + 1,
            old(self).pos() == old(self).input().len() ==> r == Err::<u8, DecodingError>(
                DecodingError::EndOfFile,
            ) && final(self).pos() == old(self).pos(),
    {
        if self.cursor < self.bytes.len() {
            let b = self.bytes[self.cursor];
            self.cursor = self.cursor + 1;
            Ok(b)
        } else {
            Err(DecodingError::EndOfFile)
        }
    }

    /// Consumes the byte `expected`, which must come next.
    pub fn expect_char(&mut self, expected: u8) -> (r: Result<u8, DecodingError>)
        requires
            old(self).wf(),
        ensures
            final(self).wf(),
            final(self).input() == old(self).input(),
            (outcome(r), final(self).pos()) == expect_byte(
                old(self).input(),
                old(self).pos(),
                expected,
            ),
    {
        match self.peek() {
            None => Err(DecodingError::EndOfFile),
            Some(c) => {
                if c == expected {
                    self.advance()
                } else {
                    Err(DecodingError::MissingIdentifier(expected as char))
                }
            },
        }
    }

    /// Reads an optionally negative decimal number: the whole run of digits,
    /// accumulated with 64-bit wrapping; `-0` is refused.
    pub fn read_num(&mut self) -> (r: Result<i64, DecodingError>)
        requires
            old(self).wf(),
        ensures
            final(self).wf(),
            final(self).input() == old(self).input(),
            (outcome(r), final(self).pos()) == read_num(old(self).input(), old(self).pos()),
    {
        let ghost s = self.input();
        let ghost p = self.pos();
        let mut neg = false;
        if let Some(c) = self.peek() {
            if c == MINUS {
                neg = true;
                let _ = self.advance();
            }
        }
        let first = match self.peek() {
            None => {
                return Err(DecodingError::EndOfFile);
            },
            Some(c) => c,
        };
        if !(ZERO <= first && first <= ZERO + 9) {
            return Err(DecodingError::NotANumber);
        }
        if neg && first == ZERO {
            return Err(DecodingError::NegativeZero);
        }
        let start = self.cursor;
        let mut acc: i64 = 0;
        while self.cursor < self.bytes.len() && ZERO <= self.bytes[self.cursor]
            && self.bytes[self.cursor] <= ZERO + 9
            invariant
                self.wf(),
                self.input() == s,
                start <= self.cursor,
                acc == fold_digits(s.subrange(start as int, self.cursor as int)),
                digit_run(s, start as int) == (self.cursor - start) + digit_run(
                    s,
                    self.cursor as int,
                ),
            decreases self.bytes@.len() - self.cursor,
        {
            let b = self.bytes[self.cursor];
            proof {
                let ds = s.subrange(start as int, self.cursor + 1);
                assert(ds.drop_last() =~= s.subrange(start as int, self.cursor as int));
            }
            assert(digit_run(s, self.cursor as int) == 1 + digit_run(s, self.cursor + 1));
            acc = acc.wrapping_mul(10).wrapping_add((b - ZERO) as i64);
            self.cursor = self.cursor + 1;
        }
        assert(digit_run(s, self.cursor as int) == 0);
        assert(fold_digits(Seq::<u8>::empty()) == 0);
        assert(acc == fold_digits(s.subrange(start as int, self.cursor as int)));
        if neg {
            Ok(0i64.wrapping_sub(acc))
        } else {
            Ok(acc)
        }
    }

    /// Reads an integer production: `i`, a number, `e`. A number that starts
    /// with `0` is that `0` alone, so `e` must follow it.
    pub fn parse_int(&mut self) -> (r: Result<i64, DecodingError>)
        requires
            old(self).wf(),
        ensures
            final(self).wf(),
            final(self).input() == old(self).input(),
            (outcome(r), final(self).pos()) == parse_int(old(self).input(), old(self).pos()),
            r is Ok ==> old(self).pos() < final(self).pos(),
    {
        if let Err(e) = self.expect_char(INT_START) {
            return Err(e);
        }
        let mut zero = false;
        if let Some(c) = self.peek() {
            zero = c == ZERO;
        }
        let i = if zero {
            let _ = self.advance();
            0
        } else {
            match self.read_num() {
                Ok(i) => i,
                Err(e) => {
                    return Err(e);
                },
            }
        };
        if let Err(e) = self.expect_char(END) {
            return Err(e);
        }
        Ok(i)
    }

    /// Reads a byte-string production: a length, `:`, then that many bytes,
    /// copied out. When the bytes run out the cursor goes to the end.
    pub fn parse_str(&mut self) -> (r: Result<ByteString, DecodingError>)
        requires
            old(self).wf(),
        ensures
            final(self).wf(),
            final(self).input() == old(self).input(),
            (outcome(r), final(self).pos()) == parse_str(old(self).input(), old(self).pos()),
            r is Ok ==> old(self).pos() < final(self).pos(),
    {
        let len = match self.read_num() {
            Ok(n) => n,
            Err(_) => {
                return Err(DecodingError::StringWithoutLength);
            },
        };
        if len < 0 {
            return Err(DecodingError::NegativeStringLen);
        }
        if let Err(e) = self.expect_char(COLON) {
            return Err(e);
        }
        let start = self.cursor;
        let remaining = self.bytes.len() - start;
        if len as u64 > remaining as u64 {
            self.cursor = self.bytes.len();
            return Err(DecodingError::EndOfFile);
        }
        let end = start + len as usize;
        self.cursor = end;
        Ok(ByteString(vstd::slice::slice_to_vec(&self.bytes[start..end])))
    }

    /// Reads a list production: `l`, values up to the closing `e`, `e`.
    pub fn parse_list(&mut self) -> (r: Result<Vec<BEncodingType>, DecodingError>)
        requires
            old(self).wf(),
        ensures
            final(self).wf(),
            final(self).input() == old(self).input(),
            (list_outcome(r), final(self).pos()) == parse_list(
                old(self).input(),
                old(self).pos(),
            ),
            r is Ok ==> old(self).pos() < final(self).pos(),
        decreases old(self).input().len() - old(self).pos(), 1int,
    {
        let ghost s = self.input();
        let ghost p = self.pos();
        if let Err(e) = self.expect_char(LIST_START) {
            return Err(e);
        }
        let mut list: Vec<BEncodingType> = Vec::new();
        loop
            invariant
                self.wf(),
                self.input() == s,
                s == old(self).input(),
                p == old(self).pos(),
                p < self.pos(),
                parse_items(s, self.pos(), view_items(list@)) == parse_list(s, p),
            ensures
                self.wf(),
                self.input() == s,
                s == old(self).input(),
                p == old(self).pos(),
                p < self.pos(),
                parse_items(s, self.pos(), view_items(list@)) == parse_list(s, p),
                self.pos() == s.len() || s[self.pos()] == END,
            decreases self.input().len() - self.pos(),
        {
            match self.peek() {
                None => {
                    break ;
                },
                Some(c) => {
                    if c == END {
                        break ;
                    }
                },
            }
            let ghost before = list@;
            match self.parse_type() {
                Ok(v) => {
                    list.push(v);
                    proof {
                        assert(list@.drop_last() =~= before);
                    }
                },
                Err(e) => {
                    return Err(e);
                },
            }
        }
        if let Err(e) = self.expect_char(END) {
            return Err(e);
        }
        Ok(list)
    }

    /// Reads a dictionary production: `d`, key-value pairs up to the closing
    /// `e`, `e`. Each key is a byte string. A repeated key takes the later
    /// value and moves to the position of the later entry. A value that fails
    /// is reported with its key.
    pub fn parse_dict(&mut self) -> (r: Result<Dictionary, DecodingError>)
        requires
            old(self).wf(),
        ensures
            final(self).wf(),
            final(self).input() == old(self).input(),
            (outcome(r), final(self).pos()) == parse_dict(old(self).input(), old(self).pos()),
            r is Ok ==> old(self).pos() < final(self).pos(),
        decreases old(self).input().len() - old(self).pos(), 1int,
    {
        let ghost s = self.input();
        let ghost p = self.pos();
        if let Err(e) = self.expect_char(DICT_START) {
            return Err(e);
        }
        let mut dict = Dictionary::new();
        loop
            invariant
                self.wf(),
                self.input() == s,
                s == old(self).input(),
                p == old(self).pos(),
                p < self.pos(),
                parse_entries(s, self.pos(), dict@) == parse_dict(s, p),
            ensures
                self.wf(),
                self.input() == s,
                s == old(self).input(),
                p == old(self).pos(),
                p < self.pos(),
                parse_entries(s, self.pos(), dict@) == parse_dict(s, p),
                self.pos() == s.len() || s[self.pos()] == END,
            decreases self.input().len() - self.pos(),
        {
            match self.peek() {
                None => {
                    break ;
                },
                Some(c) => {
                    if c == END {
                        break ;
                    }
                },
            }
            let key = match self.parse_str() {
                Ok(k) => k,
                Err(e) => {
                    return Err(e);
                },
            };
            let value = match self.parse_type() {
                Ok(v) => v,
                Err(_) => {
                    return Err(DecodingError::KeyWithoutValue(key));
                },
            };
            dict.insert(key, value);
        }
        if let Err(e) = self.expect_char(END) {
            return Err(e);
        }
        Ok(dict)
    }

    /// Reads one value of any kind, chosen by its first byte: `i`, `l` and
    /// `d` lead integers, lists and dictionaries; anything else is read as a
    /// byte string.
    pub fn parse_type(&mut self) -> (r: Result<BEncodingType, DecodingError>)
        requires
            old(self).wf(),
        ensures
            final(self).wf(),
            final(self).input() == old(self).input(),
            (outcome(r), final(self).pos()) == parse_value(old(self).input(), old(self).pos()),
            r is Ok ==> old(self).pos() < final(self).pos(),
        decreases old(self).input().len() - old(self).pos(), 2int,
    {
        match self.peek() {
            None => Err(DecodingError::EndOfFile),
            Some(c) => {
                if c == INT_START {
                    match self.parse_int() {
                        Ok(n) => Ok(BEncodingType::Integer(n)),
                        Err(e) => Err(e),
                    }
                } else if c == LIST_START {
                    match self.parse_list() {
                        Ok(items) => Ok(BEncodingType::List(items)),
                        Err(e) => Err(e),
                    }
                } else if c == DICT_START {
                    match self.parse_dict() {
                        Ok(d) => Ok(BEncodingType::Dictionary(d)),
                        Err(e) => Err(e),
                    }
                } else {
                    match self.parse_str() {
                        Ok(b) => Ok(BEncodingType::String(b)),
                        Err(e) => Err(e),
                    }
                }
            },
        }
    }

    /// Reads one value from the cursor.
    pub fn decode(&mut self) -> (r: Result<BEncodingType, DecodingError>)
        requires
            old(self).wf(),
        ensures
            final(self).wf(),
            final(self).input() == old(self).input(),
            (outcome(r), final(self).pos()) == parse_value(old(self).input(), old(self).pos()),
    {
        self.parse_type()
    }
}

} // verus!

verus! {

/// Decodes one value from the start of `inp`; bytes after it are not read.
/// No dictionary in a decoded value holds a key twice.
pub fn decode(inp: &[u8]) -> (r: Result<BEncodingType, DecodingError>)
    ensures
        outcome(r) == decode_spec(inp@).0,
        r is Ok ==> well_formed(r->Ok_0@),
{
    let mut parser = BDecoder::new(inp);
    let r = parser.decode();
    proof {
        if r is Ok {
            lemma_decoded_well_formed(inp@, 0);
        }
    }
    r
}

} // verus!
