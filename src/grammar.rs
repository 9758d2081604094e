//! The wire grammar as mathematical functions: what decoding a byte sequence
//! from a given offset yields, and what bytes encode a value.
use vstd::prelude::*;

use crate::error::Fault;
use crate::value::{entries_insert, Term};

verus! {

pub const INT_START: u8 = 0x69;  // 'i'
pub const LIST_START: u8 = 0x6c;  // 'l'
pub const DICT_START: u8 = 0x64;  // 'd'
pub const END: u8 = 0x65;  // 'e'
pub const COLON: u8 = 0x3a;  // ':'
pub const MINUS: u8 = 0x2d;  // '-'
pub const ZERO: u8 = 0x30;  // '0'

/// The outcome of a production begun at some offset: its result, and the
/// offset at which the decoder stops (after the production on success, at
/// the point of failure otherwise).
pub type Step<T> = (Result<T, Fault>, int);

pub open spec fn is_digit(b: u8) -> bool {
    ZERO <= b <= ZERO + 9
}

/// The number of consecutive ASCII digits in `s` from offset `p`.
pub open spec fn digit_run(s: Seq<u8>, p: int) -> nat
    decreases s.len() - p,
{
    if 0 <= p < s.len() && is_digit(s[p]) {
        1 + digit_run(s, p + 1)
    } else {
        0
    }
}

/// Digits folded as `acc * 10 + digit` in 64-bit wrapping arithmetic.
pub open spec fn fold_digits(ds: Seq<u8>) -> i64
    decreases ds.len(),
{
    if ds.len() == 0 {
        0
    } else {
        let acc = fold_digits(ds.drop_last());
        acc.wrapping_mul(10).wrapping_add((ds.last() - ZERO) as i64)
    }
}

/// Requires the literal byte `c` at offset `p` and consumes it.
pub open spec fn expect_byte(s: Seq<u8>, p: int, c: u8) -> Step<u8> {
    if !(0 <= p < s.len()) {
        (Err(Fault::EndOfFile), p)
    } else if s[p] == c {
        (Ok(c), p + 1)
    } else {
        (Err(Fault::MissingIdentifier(c as char)), p)
    }
}

/// An optionally negative decimal number: the whole run of digits, with
/// `-0` refused.
pub open spec fn read_num(s: Seq<u8>, p: int) -> Step<i64> {
    let neg = 0 <= p < s.len() && s[p] == MINUS;
    let q = if neg { p + 1 } else { p };
    if !(0 <= q < s.len()) {
        (Err(Fault::EndOfFile), q)
    } else if !is_digit(s[q]) {
        (Err(Fault::NotANumber), q)
    } else if neg && s[q] == ZERO {
        (Err(Fault::NegativeZero), q)
    } else {
        let n = digit_run(s, q);
        let mag = fold_digits(s.subrange(q, q + n));
        (Ok(if neg { 0i64.wrapping_sub(mag) } else { mag }), q + n)
    }
}

/// An integer production: `i`, a number, `e`. A number that starts with `0`
/// is that `0` alone, so `e` must follow it.
pub open spec fn parse_int(s: Seq<u8>, p: int) -> Step<i64> {
    let (r1, k1) = expect_byte(s, p, INT_START);
    match r1 {
        Err(f) => (Err(f), k1),
        Ok(_) => {
            let (r2, k2) = if 0 <= k1 < s.len() && s[k1] == ZERO {
                (Ok(0i64), k1 + 1)
            } else {
                read_num(s, k1)
            };
            match r2 {
                Err(f) => (Err(f), k2),
                Ok(n) => {
                    let (r3, k3) = expect_byte(s, k2, END);
                    match r3 {
                        Err(f) => (Err(f), k3),
                        Ok(_) => (Ok(n), k3),
                    }
                },
            }
        },
    }
}

/// A byte-string production: a length, `:`, then that many bytes. When the
/// bytes run out the decoder stops at the end of the input.
pub open spec fn parse_str(s: Seq<u8>, p: int) -> Step<Seq<u8>> {
    let (r1, k1) = read_num(s, p);
    match r1 {
        Err(_) => (Err(Fault::StringWithoutLength), k1),
        Ok(n) => if n < 0 {
            (Err(Fault::NegativeStringLen), k1)
        } else {
            let (r2, k2) = expect_byte(s, k1, COLON);
            match r2 {
                Err(f) => (Err(f), k2),
                Ok(_) => if k2 + n > s.len() {
                    (Err(Fault::EndOfFile), s.len() as int)
                } else {
                    (Ok(s.subrange(k2, k2 + n)), k2 + n)
                },
            }
        },
    }
}

// The productions below are mutually recursive. Each successful production
// consumes at least one byte, so the offset grows from one element to the
// next; the guards `p < q <= s.len()` state that fact where the recursion
// needs it and are never false (see `lemma_progress`).

/// Any value, chosen by its first byte.
pub open spec fn parse_value(s: Seq<u8>, p: int) -> Step<Term>
    decreases s.len() - p, 2int,
{
    if !(0 <= p < s.len()) {
        (Err(Fault::EndOfFile), p)
    } else if s[p] == INT_START {
        let (r, q) = parse_int(s, p);
        (match r { Ok(n) => Ok(Term::Int(n)), Err(f) => Err(f) }, q)
    } else if s[p] == LIST_START {
        let (r, q) = parse_list(s, p);
        (match r { Ok(items) => Ok(Term::List(items)), Err(f) => Err(f) }, q)
    } else if s[p] == DICT_START {
        let (r, q) = parse_dict(s, p);
        (match r { Ok(es) => Ok(Term::Dict(es)), Err(f) => Err(f) }, q)
    } else {
        let (r, q) = parse_str(s, p);
        (match r { Ok(b) => Ok(Term::Bytes(b)), Err(f) => Err(f) }, q)
    }
}

/// A list production: `l`, values, `e`.
pub open spec fn parse_list(s: Seq<u8>, p: int) -> Step<Seq<Term>>
    decreases s.len() - p, 1int,
{
    let (r, q) = expect_byte(s, p, LIST_START);
    match r {
        Err(f) => (Err(f), q),
        Ok(_) => parse_items(s, q, Seq::empty()),
    }
}

/// The rest of a list from offset `p`, after the elements `acc`.
pub open spec fn parse_items(s: Seq<u8>, p: int, acc: Seq<Term>) -> Step<Seq<Term>>
    decreases s.len() - p, 3int,
{
    if !(0 <= p < s.len()) {
        (Err(Fault::EndOfFile), p)
    } else if s[p] == END {
        (Ok(acc), p + 1)
    } else {
        let (r, q) = parse_value(s, p);
        match r {
            Err(f) => (Err(f), q),
            Ok(v) => if p < q <= s.len() {
                parse_items(s, q, acc.push(v))
            } else {
                (Err(Fault::EndOfFile), q)
            },
        }
    }
}

/// A dictionary production: `d`, key-value pairs, `e`.
pub open spec fn parse_dict(s: Seq<u8>, p: int) -> Step<Seq<(Seq<u8>, Term)>>
    decreases s.len() - p, 1int,
{
    let (r, q) = expect_byte(s, p, DICT_START);
    match r {
        Err(f) => (Err(f), q),
        Ok(_) => parse_entries(s, q, Seq::empty()),
    }
}

/// The rest of a dictionary from offset `p`, after the entries `acc`. A key
/// whose value fails is reported with `KeyWithoutValue`.
pub open spec fn parse_entries(
    s: Seq<u8>,
    p: int,
    acc: Seq<(Seq<u8>, Term)>,
) -> Step<Seq<(Seq<u8>, Term)>>
    decreases s.len() - p, 3int,
{
    if !(0 <= p < s.len()) {
        (Err(Fault::EndOfFile), p)
    } else if s[p] == END {
        (Ok(acc), p + 1)
    } else {
        let (rk, q) = parse_str(s, p);
        match rk {
            Err(f) => (Err(f), q),
            Ok(k) => if p < q <= s.len() {
                let (rv, r) = parse_value(s, q);
                match rv {
                    Err(_) => (Err(Fault::KeyWithoutValue(k)), r),
                    Ok(v) => if q < r <= s.len() {
                        parse_entries(s, r, entries_insert(acc, k, v))
                    } else {
                        (Err(Fault::EndOfFile), r)
                    },
                }
            } else {
                (Err(Fault::EndOfFile), q)
            },
        }
    }
}

/// Decoding a whole input: one value from offset 0.
pub open spec fn decode_spec(s: Seq<u8>) -> Step<Term> {
    parse_value(s, 0)
}

/// The decimal digits of a natural number, without leading zeros.
pub open spec fn digits_of(n: nat) -> Seq<u8>
    decreases n,
{
    if n < 10 {
        seq![(ZERO + n) as u8]
    } else {
        digits_of(n / 10).push((ZERO + n % 10) as u8)
    }
}

/// The decimal text of an integer, with a `-` before a negative one.
pub open spec fn decimal(n: int) -> Seq<u8> {
    if n < 0 {
        seq![MINUS] + digits_of((-n) as nat)
    } else {
        digits_of(n as nat)
    }
}

/// The encoding of a byte string: its length, `:`, its bytes.
pub open spec fn enc_bytes(b: Seq<u8>) -> Seq<u8> {
    digits_of(b.len()) + seq![COLON] + b
}

/// The encoding of a value.
pub open spec fn enc(t: Term) -> Seq<u8>
    decreases t, 0int,
{
    match t {
        Term::Int(n) => seq![INT_START] + decimal(n as int) + seq![END],
        Term::Bytes(b) => enc_bytes(b),
        Term::List(items) => seq![LIST_START] + enc_items(items) + seq![END],
        Term::Dict(es) => seq![DICT_START] + enc_entries(es) + seq![END],
    }
}

/// The encodings of values, one after another.
pub open spec fn enc_items(items: Seq<Term>) -> Seq<u8>
    decreases items, 0int,
{
    if items.len() == 0 {
        Seq::empty()
    } else {
        enc(items[0]) + enc_items(items.drop_first())
    }
}

/// Each entry as its key's encoding followed by its value's.
pub open spec fn enc_entries(es: Seq<(Seq<u8>, Term)>) -> Seq<u8>
    decreases es, 0int,
{
    if es.len() == 0 {
        Seq::empty()
    } else {
        enc_bytes(es[0].0) + enc(es[0].1) + enc_entries(es.drop_first())
    }
}

} // verus!
