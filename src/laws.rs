//! Properties of the codec as a whole, proved over the grammar model.
use vstd::prelude::*;

use crate::error::Fault;
use crate::grammar::{
    decimal, decode_spec, digit_run, digits_of, enc, enc_bytes, enc_entries, enc_items,
    fold_digits, is_digit, parse_entries, parse_int, parse_items, parse_str,
    parse_value, read_num, COLON, DICT_START, END, INT_START, LIST_START, MINUS, ZERO,
};
use crate::value::{entries_insert, keys_unique, lemma_insert_unique, lemma_insert_new_key, has_key, well_formed, BEncodingType, Term};

verus! {

/// The decimal digits of `n` are digits, and the first is `0` only for `n == 0`.
pub proof fn lemma_digits_shape(n: nat)
    ensures
        digits_of(n).len() >= 1,
        forall|j: int| 0 <= j < digits_of(n).len() ==> is_digit(#[trigger] digits_of(n)[j]),
        (digits_of(n)[0] == ZERO) == (n == 0),
    decreases n,
{
    if n >= 10 {
        lemma_digits_shape(n / 10);
        let d = digits_of(n);
        assert(d == digits_of(n / 10).push((ZERO + n % 10) as u8));
        assert forall|j: int| 0 <= j < d.len() implies is_digit(#[trigger] d[j]) by {
            if j < d.len() - 1 {
                assert(d[j] == digits_of(n / 10)[j]);
            }
        }
        assert(d[0] == digits_of(n / 10)[0]);
    }
}

/// Folding the decimal digits of `n` gives `n` back when it fits in an `i64`.
pub proof fn lemma_fold_digits(n: nat)
    requires
        n <= i64::MAX,
    ensures
        fold_digits(digits_of(n)) == n,
    decreases n,
{
    let d = digits_of(n);
    if n >= 10 {
        lemma_fold_digits(n / 10);
        assert(d.drop_last() =~= digits_of(n / 10));
        let acc = fold_digits(digits_of(n / 10));
        assert(acc * 10 <= i64::MAX);
        assert(acc.wrapping_mul(10) == acc * 10);
        assert(d.last() == (ZERO + n % 10) as u8);
        assert((n / 10) * 10 + n % 10 == n);
    } else {
        assert(d.drop_last() =~= Seq::<u8>::empty());
        assert(fold_digits(Seq::<u8>::empty()) == 0);
        assert(0i64.wrapping_mul(10) == 0);
    }
}

/// The digits of 2^63 fold, wrapping, to `i64::MIN`.
pub proof fn lemma_fold_digits_min()
    ensures
        fold_digits(digits_of(0x8000_0000_0000_0000nat)) == i64::MIN,
{
    let n = 0x8000_0000_0000_0000nat;
    let d = digits_of(n);
    lemma_fold_digits(n / 10);
    assert(d.drop_last() =~= digits_of(n / 10));
    let acc = fold_digits(digits_of(n / 10));
    assert(acc == 922337203685477580);
    assert(acc.wrapping_mul(10) == 9223372036854775800i64);
}

/// A run of digits followed by a non-digit has exactly its own length.
pub proof fn lemma_digit_run(s: Seq<u8>, q: int, d: Seq<u8>)
    requires
        0 <= q,
        q + d.len() < s.len(),
        s.subrange(q, q + d.len()) == d,
        forall|j: int| 0 <= j < d.len() ==> is_digit(#[trigger] d[j]),
        !is_digit(s[q + d.len()]),
    ensures
        digit_run(s, q) == d.len(),
    decreases d.len(),
{
    if d.len() > 0 {
        assert(s[q] == s.subrange(q, q + d.len())[0]);
        let rest = d.drop_first();
        assert(s.subrange(q + 1, q + 1 + rest.len()) =~= rest) by {
            assert forall|j: int| 0 <= j < rest.len() implies s.subrange(
                q + 1,
                q + 1 + rest.len(),
            )[j] == rest[j] by {
                assert(s[q + 1 + j] == s.subrange(q, q + d.len())[1 + j]);
            }
        }
        lemma_digit_run(s, q + 1, rest);
    }
}

/// Reading a number from the decimal text of `n`, followed by a non-digit,
/// gives `n` and stops right after the text.
pub proof fn lemma_read_decimal(s: Seq<u8>, q: int, n: i64)
    requires
        0 <= q,
        q + decimal(n as int).len() < s.len(),
        s.subrange(q, q + decimal(n as int).len()) == decimal(n as int),
        !is_digit(s[q + decimal(n as int).len()]),
    ensures
        read_num(s, q) == (Ok::<i64, Fault>(n), q + decimal(n as int).len()),
{
    let t = decimal(n as int);
    if n >= 0 {
        let d = digits_of(n as nat);
        lemma_digits_shape(n as nat);
        assert(s[q] == t[0]);
        lemma_digit_run(s, q, d);
        lemma_fold_digits(n as nat);
    } else {
        let m = (-n) as nat;
        let d = digits_of(m);
        lemma_digits_shape(m);
        assert(s[q] == t[0]);
        assert(s.subrange(q + 1, q + 1 + d.len()) =~= d) by {
            assert forall|j: int| 0 <= j < d.len() implies s.subrange(q + 1, q + 1 + d.len())[j]
                == d[j] by {
                assert(s[q + 1 + j] == s.subrange(q, q + t.len())[1 + j]);
            }
        }
        assert(s[q + 1] == d[0]);
        lemma_digit_run(s, q + 1, d);
        if n == i64::MIN {
            lemma_fold_digits_min();
        } else {
            lemma_fold_digits(m);
        }
    }
}

/// A window of `s` that holds `x + y` holds `x` and then `y`.
pub proof fn lemma_window_split(s: Seq<u8>, p: int, x: Seq<u8>, y: Seq<u8>)
    requires
        0 <= p,
        p + x.len() + y.len() <= s.len(),
        s.subrange(p, p + x.len() + y.len()) == x + y,
    ensures
        s.subrange(p, p + x.len()) == x,
        s.subrange(p + x.len(), p + x.len() + y.len()) == y,
{
    let w = s.subrange(p, p + x.len() + y.len());
    assert(s.subrange(p, p + x.len()) =~= x) by {
        assert forall|j: int| 0 <= j < x.len() implies s.subrange(p, p + x.len())[j] == x[j] by {
            assert(w[j] == (x + y)[j]);
        }
    }
    assert(s.subrange(p + x.len(), p + x.len() + y.len()) =~= y) by {
        assert forall|j: int| 0 <= j < y.len() implies s.subrange(
            p + x.len(),
            p + x.len() + y.len(),
        )[j] == y[j] by {
            assert(w[x.len() + j] == (x + y)[x.len() + j]);
        }
    }
}

/// The byte at offset `j` of a window is the byte at `p + j` of the input.
pub proof fn lemma_window_byte(s: Seq<u8>, p: int, w: Seq<u8>, j: int)
    requires
        0 <= p,
        p + w.len() <= s.len(),
        s.subrange(p, p + w.len()) == w,
        0 <= j < w.len(),
    ensures
        s[p + j] == w[j],
{
    assert(s.subrange(p, p + w.len())[j] == s[p + j]);
}

/// An encoding is never empty and never starts with the end marker; a byte
/// string's encoding starts with a digit and has at least two bytes.
pub proof fn lemma_enc_lead(t: Term)
    ensures
        enc(t).len() >= 1,
        enc(t)[0] != END,
        forall|b: Seq<u8>| #![trigger enc_bytes(b)]
            enc_bytes(b).len() >= 2 && is_digit(enc_bytes(b)[0]),
{
    assert forall|b: Seq<u8>| #![trigger enc_bytes(b)]
        enc_bytes(b).len() >= 2 && is_digit(enc_bytes(b)[0]) by {
        lemma_digits_shape(b.len());
        assert(enc_bytes(b)[0] == digits_of(b.len())[0]);
    }
    match t {
        Term::Bytes(b) => {
            assert(enc(t) == enc_bytes(b));
        },
        _ => {},
    }
}

/// Decoding the encoding of a byte string, at any offset of a longer input
/// of at most `i64::MAX` bytes, gives the byte string back and stops right
/// after its encoding.
pub proof fn lemma_parse_enc_bytes(s: Seq<u8>, p: int, b: Seq<u8>)
    requires
        s.len() <= i64::MAX,
        0 <= p,
        p + enc_bytes(b).len() <= s.len(),
        s.subrange(p, p + enc_bytes(b).len()) == enc_bytes(b),
    ensures
        parse_str(s, p) == (Ok::<Seq<u8>, Fault>(b), p + enc_bytes(b).len()),
{
    let d = digits_of(b.len());
    let n = b.len() as i64;
    assert(decimal(n as int) == d);
    assert(enc_bytes(b) == d + seq![COLON] + b);
    lemma_window_split(s, p, d + seq![COLON], b);
    lemma_window_split(s, p, d, seq![COLON]);
    lemma_window_byte(s, p + d.len(), seq![COLON], 0);
    lemma_read_decimal(s, p, n);
}

/// Decoding the encoding of a well-formed value, at any offset of a longer
/// input of at most `i64::MAX` bytes, gives the value back and stops right
/// after its encoding.
pub proof fn lemma_parse_enc(s: Seq<u8>, p: int, t: Term)
    requires
        well_formed(t),
        s.len() <= i64::MAX,
        0 <= p,
        p + enc(t).len() <= s.len(),
        s.subrange(p, p + enc(t).len()) == enc(t),
    ensures
        parse_value(s, p) == (Ok::<Term, Fault>(t), p + enc(t).len()),
    decreases t, 0int,
{
    lemma_enc_lead(t);
    lemma_window_byte(s, p, enc(t), 0);
    match t {
        Term::Int(n) => {
            let dec = decimal(n as int);
            assert(enc(t) == seq![INT_START] + dec + seq![END]);
            lemma_window_split(s, p, seq![INT_START] + dec, seq![END]);
            lemma_window_split(s, p, seq![INT_START], dec);
            lemma_window_byte(s, p + 1 + dec.len(), seq![END], 0);
            lemma_window_byte(s, p + 1, dec, 0);
            if n == 0 {
                assert(dec == seq![ZERO]);
            } else {
                if n > 0 {
                    lemma_digits_shape(n as nat);
                }
                lemma_read_decimal(s, p + 1, n);
            }
        },
        Term::Bytes(b) => {
            lemma_parse_enc_bytes(s, p, b);
        },
        Term::List(items) => {
            let body = enc_items(items);
            assert(enc(t) == seq![LIST_START] + body + seq![END]);
            lemma_window_split(s, p, seq![LIST_START] + body, seq![END]);
            lemma_window_split(s, p, seq![LIST_START], body);
            lemma_window_byte(s, p + 1 + body.len(), seq![END], 0);
            lemma_parse_enc_items(s, p + 1, items, Seq::empty());
            assert(Seq::<Term>::empty() + items =~= items);
        },
        Term::Dict(es) => {
            let body = enc_entries(es);
            assert(enc(t) == seq![DICT_START] + body + seq![END]);
            lemma_window_split(s, p, seq![DICT_START] + body, seq![END]);
            lemma_window_split(s, p, seq![DICT_START], body);
            lemma_window_byte(s, p + 1 + body.len(), seq![END], 0);
            assert(Seq::<(Seq<u8>, Term)>::empty() + es =~= es);
            lemma_parse_enc_entries(s, p + 1, es, Seq::empty());
        },
    }
}

/// The elements of a list body, then the closing `e`, decode to those
/// elements after the ones already read.
pub proof fn lemma_parse_enc_items(s: Seq<u8>, p: int, items: Seq<Term>, acc: Seq<Term>)
    requires
        forall|i: int| 0 <= i < items.len() ==> well_formed(#[trigger] items[i]),
        s.len() <= i64::MAX,
        0 <= p,
        p + enc_items(items).len() < s.len(),
        s.subrange(p, p + enc_items(items).len()) == enc_items(items),
        s[p + enc_items(items).len()] == END,
    ensures
        parse_items(s, p, acc) == (Ok::<Seq<Term>, Fault>(acc + items), p + enc_items(
            items,
        ).len() + 1),
    decreases items, 0int,
{
    if items.len() == 0 {
        assert(acc + items =~= acc);
    } else {
        let t = items[0];
        let rest = items.drop_first();
        let et = enc(t);
        assert(enc_items(items) == et + enc_items(rest));
        lemma_window_split(s, p, et, enc_items(rest));
        lemma_enc_lead(t);
        lemma_window_byte(s, p, et, 0);
        lemma_parse_enc(s, p, t);
        assert forall|i: int| 0 <= i < rest.len() implies well_formed(#[trigger] rest[i]) by {
            assert(rest[i] == items[i + 1]);
        }
        lemma_parse_enc_items(s, p + et.len(), rest, acc.push(t));
        assert(acc.push(t) + rest =~= acc + items);
    }
}

/// The entries of a dictionary body, then the closing `e`, decode to those
/// entries after the ones already read, when no key repeats.
pub proof fn lemma_parse_enc_entries(
    s: Seq<u8>,
    p: int,
    es: Seq<(Seq<u8>, Term)>,
    acc: Seq<(Seq<u8>, Term)>,
)
    requires
        keys_unique(acc + es),
        forall|i: int| 0 <= i < es.len() ==> well_formed(#[trigger] es[i].1),
        s.len() <= i64::MAX,
        0 <= p,
        p + enc_entries(es).len() < s.len(),
        s.subrange(p, p + enc_entries(es).len()) == enc_entries(es),
        s[p + enc_entries(es).len()] == END,
    ensures
        parse_entries(s, p, acc) == (Ok::<Seq<(Seq<u8>, Term)>, Fault>(acc + es), p
            + enc_entries(es).len() + 1),
    decreases es, 0int,
{
    if es.len() == 0 {
        assert(acc + es =~= acc);
    } else {
        let (k, v) = es[0];
        let rest = es.drop_first();
        let ek = enc_bytes(k);
        let ev = enc(v);
        assert(enc_entries(es) == ek + ev + enc_entries(rest));
        lemma_window_split(s, p, ek + ev, enc_entries(rest));
        lemma_window_split(s, p, ek, ev);
        lemma_enc_lead(v);
        lemma_window_byte(s, p, ek, 0);
        lemma_parse_enc_bytes(s, p, k);
        assert(decreases_to!(es => es[0]));
        lemma_parse_enc(s, p + ek.len(), v);
        let all = acc + es;
        assert(all[acc.len() as int] == es[0]);
        assert(!has_key(acc, k)) by {
            assert forall|i: int| 0 <= i < acc.len() implies #[trigger] acc[i].0 != k by {
                assert(all[i] == acc[i]);
            }
        }
        lemma_insert_new_key(acc, k, v);
        assert(acc.push((k, v)) + rest =~= all);
        assert forall|i: int| 0 <= i < rest.len() implies well_formed(#[trigger] rest[i].1) by {
            assert(rest[i] == es[i + 1]);
        }
        lemma_parse_enc_entries(s, p + ek.len() + ev.len(), rest, acc.push((k, v)));
    }
}

/// Round trip: decoding the encoding of a well-formed value gives the value
/// back, and the decoder stops exactly at the end of the encoding. (A buffer
/// holds at most `isize::MAX` bytes, so the encoding is at most that long.)
pub proof fn lemma_round_trip(v: BEncodingType)
    requires
        well_formed(v@),
        enc(v@).len() <= isize::MAX,
    ensures
        decode_spec(enc(v@)) == (Ok::<Term, Fault>(v@), enc(v@).len() as int),
{
    let s = enc(v@);
    assert(s.subrange(0, s.len() as int) =~= s);
    lemma_parse_enc(s, 0, v@);
}

/// Bytes that follow a value's encoding are not read: the decoder returns
/// the value and stops at the end of its encoding.
pub proof fn lemma_trailing_bytes_unread(v: BEncodingType, rest: Seq<u8>)
    requires
        well_formed(v@),
        enc(v@).len() + rest.len() <= isize::MAX,
    ensures
        decode_spec(enc(v@) + rest) == (Ok::<Term, Fault>(v@), enc(v@).len() as int),
{
    let s = enc(v@) + rest;
    assert(s.subrange(0, s.len() as int) =~= s);
    lemma_window_split(s, 0, enc(v@), rest);
    lemma_parse_enc(s, 0, v@);
}

/// A number read successfully ends after at least one digit and inside the
/// input.
pub proof fn lemma_read_num_bounds(s: Seq<u8>, p: int)
    requires
        0 <= p,
        read_num(s, p).0 is Ok,
    ensures
        p < read_num(s, p).1 <= s.len(),
{
    let q = if 0 <= p < s.len() && s[p] == MINUS { p + 1 } else { p };
    lemma_digit_run_bound(s, q);
}

/// A run of digits stays inside the input.
pub proof fn lemma_digit_run_bound(s: Seq<u8>, q: int)
    requires
        0 <= q <= s.len(),
    ensures
        q + digit_run(s, q) <= s.len(),
    decreases s.len() - q,
{
    if q < s.len() && is_digit(s[q]) {
        lemma_digit_run_bound(s, q + 1);
    }
}

/// Every successful production consumes at least one byte and ends inside
/// the input.
pub proof fn lemma_progress(s: Seq<u8>, p: int)
    requires
        0 <= p,
        parse_value(s, p).0 is Ok,
    ensures
        p < parse_value(s, p).1 <= s.len(),
    decreases s.len() - p, 2int,
{
    if s[p] == INT_START {
        if s[p + 1] != ZERO {
            lemma_read_num_bounds(s, p + 1);
        }
    } else if s[p] == LIST_START {
        lemma_progress_items(s, p + 1, Seq::empty());
    } else if s[p] == DICT_START {
        lemma_progress_entries(s, p + 1, Seq::empty());
    } else {
        lemma_read_num_bounds(s, p);
    }
}

/// The rest of a list, read successfully, ends after `p` and inside the input.
pub proof fn lemma_progress_items(s: Seq<u8>, p: int, acc: Seq<Term>)
    requires
        0 <= p,
        parse_items(s, p, acc).0 is Ok,
    ensures
        p < parse_items(s, p, acc).1 <= s.len(),
    decreases s.len() - p, 3int,
{
    if s[p] != END {
        let (r, q) = parse_value(s, p);
        lemma_progress_items(s, q, acc.push(r->Ok_0));
    }
}

/// The rest of a dictionary, read successfully, ends after `p` and inside
/// the input.
pub proof fn lemma_progress_entries(s: Seq<u8>, p: int, acc: Seq<(Seq<u8>, Term)>)
    requires
        0 <= p,
        parse_entries(s, p, acc).0 is Ok,
    ensures
        p < parse_entries(s, p, acc).1 <= s.len(),
    decreases s.len() - p, 3int,
{
    if s[p] != END {
        let (rk, q) = parse_str(s, p);
        let (rv, r) = parse_value(s, q);
        lemma_progress_entries(s, r, entries_insert(acc, rk->Ok_0, rv->Ok_0));
    }
}

/// `s` and `t` both hold at least `n` bytes and agree on the first `n`.
pub open spec fn agree_upto(s: Seq<u8>, t: Seq<u8>, n: int) -> bool {
    &&& n <= s.len()
    &&& n <= t.len()
    &&& forall|i: int| 0 <= i < n ==> s[i] == t[i]
}

/// A run of digits ending at a non-digit at `q` is the same in any input
/// that agrees up to and including `q`.
pub proof fn lemma_local_digit_run(s: Seq<u8>, t: Seq<u8>, x: int, q: int)
    requires
        0 <= x <= q,
        q < s.len(),
        agree_upto(s, t, q + 1),
        digit_run(s, x) == q - x,
    ensures
        digit_run(t, x) == q - x,
    decreases q - x,
{
    assert(s[x] == t[x]);
    if x < q {
        lemma_local_digit_run(s, t, x + 1, q);
    }
}

/// A number read successfully, followed by another byte, reads the same in
/// any input that agrees up to and including that byte.
pub proof fn lemma_local_read_num(s: Seq<u8>, t: Seq<u8>, p: int)
    requires
        0 <= p,
        read_num(s, p).0 is Ok,
        read_num(s, p).1 < s.len(),
        agree_upto(s, t, read_num(s, p).1 + 1),
    ensures
        read_num(t, p) == read_num(s, p),
{
    lemma_read_num_bounds(s, p);
    let q = read_num(s, p).1;
    assert(s[p] == t[p]);
    let q0 = if s[p] == MINUS { p + 1 } else { p };
    assert(s[q0] == t[q0]);
    lemma_local_digit_run(s, t, q0, q);
    assert(s.subrange(q0, q) =~= t.subrange(q0, q));
}

/// A byte string read successfully reads the same in any input that agrees
/// up to its end.
pub proof fn lemma_local_str(s: Seq<u8>, t: Seq<u8>, p: int)
    requires
        0 <= p,
        parse_str(s, p).0 is Ok,
        agree_upto(s, t, parse_str(s, p).1),
    ensures
        parse_str(t, p) == parse_str(s, p),
{
    let (r1, q1) = read_num(s, p);
    let n = r1->Ok_0;
    assert(s[q1] == t[q1]);
    lemma_local_read_num(s, t, p);
    assert(s.subrange(q1 + 1, q1 + 1 + n) =~= t.subrange(q1 + 1, q1 + 1 + n));
}

/// An integer read successfully reads the same in any input that agrees up
/// to its end.
pub proof fn lemma_local_int(s: Seq<u8>, t: Seq<u8>, p: int)
    requires
        0 <= p,
        parse_int(s, p).0 is Ok,
        agree_upto(s, t, parse_int(s, p).1),
    ensures
        parse_int(t, p) == parse_int(s, p),
{
    assert(s[p] == t[p]);
    assert(s[p + 1] == t[p + 1]);
    if s[p + 1] != ZERO {
        let q1 = read_num(s, p + 1).1;
        assert(s[q1] == t[q1]);
        lemma_local_read_num(s, t, p + 1);
    }
}

/// A value read successfully reads the same in any input that agrees up to
/// its end.
pub proof fn lemma_local_value(s: Seq<u8>, t: Seq<u8>, p: int)
    requires
        0 <= p,
        parse_value(s, p).0 is Ok,
        agree_upto(s, t, parse_value(s, p).1),
    ensures
        parse_value(t, p) == parse_value(s, p),
    decreases s.len() - p, 2int,
{
    lemma_progress(s, p);
    assert(s[p] == t[p]);
    if s[p] == INT_START {
        lemma_local_int(s, t, p);
    } else if s[p] == LIST_START {
        lemma_local_items(s, t, p + 1, Seq::empty());
    } else if s[p] == DICT_START {
        lemma_local_entries(s, t, p + 1, Seq::empty());
    } else {
        lemma_local_str(s, t, p);
    }
}

/// The rest of a list read successfully reads the same in any input that
/// agrees up to its end.
pub proof fn lemma_local_items(s: Seq<u8>, t: Seq<u8>, p: int, acc: Seq<Term>)
    requires
        0 <= p,
        parse_items(s, p, acc).0 is Ok,
        agree_upto(s, t, parse_items(s, p, acc).1),
    ensures
        parse_items(t, p, acc) == parse_items(s, p, acc),
    decreases s.len() - p, 3int,
{
    lemma_progress_items(s, p, acc);
    assert(s[p] == t[p]);
    if s[p] != END {
        let (r, q) = parse_value(s, p);
        lemma_progress_items(s, q, acc.push(r->Ok_0));
        lemma_local_value(s, t, p);
        lemma_local_items(s, t, q, acc.push(r->Ok_0));
    }
}

/// The rest of a dictionary read successfully reads the same in any input
/// that agrees up to its end.
pub proof fn lemma_local_entries(s: Seq<u8>, t: Seq<u8>, p: int, acc: Seq<(Seq<u8>, Term)>)
    requires
        0 <= p,
        parse_entries(s, p, acc).0 is Ok,
        agree_upto(s, t, parse_entries(s, p, acc).1),
    ensures
        parse_entries(t, p, acc) == parse_entries(s, p, acc),
    decreases s.len() - p, 3int,
{
    lemma_progress_entries(s, p, acc);
    assert(s[p] == t[p]);
    if s[p] != END {
        let (rk, q) = parse_str(s, p);
        let (rv, r) = parse_value(s, q);
        let next = entries_insert(acc, rk->Ok_0, rv->Ok_0);
        lemma_progress_entries(s, r, next);
        lemma_local_str(s, t, p);
        lemma_local_value(s, t, q);
        lemma_local_entries(s, t, r, next);
    }
}

/// Cursor precision: a value decoded successfully from offset `p` ends at an
/// offset after `p` and inside the input, and no byte at or after that end is
/// read: an input that agrees with `s` before it decodes to the same value
/// and stops at the same offset.
pub proof fn lemma_cursor_precision(s: Seq<u8>, t: Seq<u8>, p: int)
    requires
        0 <= p,
        parse_value(s, p).0 is Ok,
        parse_value(s, p).1 <= t.len(),
        t.subrange(0, parse_value(s, p).1) == s.subrange(0, parse_value(s, p).1),
    ensures
        p < parse_value(s, p).1 <= s.len(),
        parse_value(t, p) == parse_value(s, p),
{
    lemma_progress(s, p);
    let q = parse_value(s, p).1;
    assert forall|i: int| 0 <= i < q implies s[i] == t[i] by {
        assert(s.subrange(0, q)[i] == t.subrange(0, q)[i]);
    }
    lemma_local_value(s, t, p);
}

/// Decoding is a function of the input bytes alone: two calls on equal
/// inputs, whatever ran before them, give the same result and stop at the
/// same offset, failures included.
pub proof fn lemma_decode_repeatable(a: Seq<u8>, b: Seq<u8>)
    requires
        a == b,
    ensures
        decode_spec(a) == decode_spec(b),
{
}

/// Every value that the decoder produces is well formed: no dictionary in it
/// holds a key twice.
pub proof fn lemma_decoded_well_formed(s: Seq<u8>, p: int)
    requires
        0 <= p,
        parse_value(s, p).0 is Ok,
    ensures
        well_formed(parse_value(s, p).0->Ok_0),
    decreases s.len() - p, 2int,
{
    if s[p] == LIST_START {
        lemma_well_formed_items(s, p + 1, Seq::empty());
    } else if s[p] == DICT_START {
        lemma_well_formed_entries(s, p + 1, Seq::empty());
    }
}

/// The rest of a list, read after well-formed elements, holds only
/// well-formed elements.
pub proof fn lemma_well_formed_items(s: Seq<u8>, p: int, acc: Seq<Term>)
    requires
        0 <= p,
        parse_items(s, p, acc).0 is Ok,
        forall|i: int| 0 <= i < acc.len() ==> well_formed(#[trigger] acc[i]),
    ensures
        forall|i: int|
            0 <= i < parse_items(s, p, acc).0->Ok_0.len() ==> well_formed(
                #[trigger] parse_items(s, p, acc).0->Ok_0[i],
            ),
    decreases s.len() - p, 3int,
{
    if s[p] != END {
        let (r, q) = parse_value(s, p);
        let next = acc.push(r->Ok_0);
        lemma_decoded_well_formed(s, p);
        assert forall|i: int| 0 <= i < next.len() implies well_formed(#[trigger] next[i]) by {
            if i < acc.len() {
                assert(next[i] == acc[i]);
            }
        }
        lemma_well_formed_items(s, q, next);
    }
}

/// The rest of a dictionary, read after entries with unique keys and
/// well-formed values, has unique keys and well-formed values.
pub proof fn lemma_well_formed_entries(s: Seq<u8>, p: int, acc: Seq<(Seq<u8>, Term)>)
    requires
        0 <= p,
        parse_entries(s, p, acc).0 is Ok,
        keys_unique(acc),
        forall|i: int| 0 <= i < acc.len() ==> well_formed(#[trigger] acc[i].1),
    ensures
        keys_unique(parse_entries(s, p, acc).0->Ok_0),
        forall|i: int|
            0 <= i < parse_entries(s, p, acc).0->Ok_0.len() ==> well_formed(
                #[trigger] parse_entries(s, p, acc).0->Ok_0[i].1,
            ),
    decreases s.len() - p, 3int,
{
    if s[p] != END {
        let (rk, q) = parse_str(s, p);
        let (rv, r) = parse_value(s, q);
        let next = entries_insert(acc, rk->Ok_0, rv->Ok_0);
        lemma_decoded_well_formed(s, q);
        lemma_insert_unique(acc, rk->Ok_0, rv->Ok_0);
        assert forall|i: int| 0 <= i < next.len() implies well_formed(#[trigger] next[i].1) by {
            if next[i] != (rk->Ok_0, rv->Ok_0) {
                let j = choose|j: int| 0 <= j < acc.len() && acc[j] == next[i];
                assert(well_formed(acc[j].1));
            }
        }
        lemma_well_formed_entries(s, r, next);
    }
}

/// Re-encoding a decoded value and decoding the result gives the same value
/// back, and the decoder stops at the end of the re-encoding.
pub proof fn lemma_reencode_stable(s: Seq<u8>)
    requires
        decode_spec(s).0 is Ok,
        enc(decode_spec(s).0->Ok_0).len() <= isize::MAX,
    ensures
        decode_spec(enc(decode_spec(s).0->Ok_0)) == (Ok::<Term, Fault>(decode_spec(s).0->Ok_0), enc(
            decode_spec(s).0->Ok_0,
        ).len() as int),
{
    let t = decode_spec(s).0->Ok_0;
    lemma_decoded_well_formed(s, 0);
    let e = enc(t);
    assert(e.subrange(0, e.len() as int) =~= e);
    lemma_parse_enc(e, 0, t);
}

/// `n` lists, each the only element of the next; the innermost is empty.
pub open spec fn nested(n: nat) -> Term
    decreases n,
{
    if n <= 1 {
        Term::List(Seq::empty())
    } else {
        Term::List(seq![nested((n - 1) as nat)])
    }
}

/// `n` opening `l` bytes followed by `n` closing `e` bytes.
pub open spec fn brackets(n: nat) -> Seq<u8> {
    Seq::new(n, |_i: int| LIST_START) + Seq::new(n, |_i: int| END)
}

/// `k` opening `l` bytes at `p` followed by `k` closing `e` bytes decode to
/// `k` nested lists, ending after the last `e`.
pub proof fn lemma_parse_nested(s: Seq<u8>, p: int, k: nat)
    requires
        k >= 1,
        0 <= p,
        p + 2 * k <= s.len(),
        forall|i: int| p <= i < p + k ==> s[i] == LIST_START,
        forall|i: int| p + k <= i < p + 2 * k ==> s[i] == END,
    ensures
        parse_value(s, p) == (Ok::<Term, Fault>(nested(k)), p + 2 * k),
    decreases k,
{
    assert(s[p] == LIST_START);
    if k == 1 {
        assert(s[p + 1] == END);
        assert(parse_items(s, p + 1, Seq::empty()) == (Ok::<Seq<Term>, Fault>(Seq::empty()), p
            + 2));
    } else {
        let inner = (k - 1) as nat;
        assert(s[p + 1] == LIST_START);
        lemma_parse_nested(s, p + 1, inner);
        let q = p + 1 + 2 * inner;
        assert(s[q] == END);
        assert(Seq::<Term>::empty().push(nested(inner)) =~= seq![nested(inner)]);
        assert(parse_items(s, q, seq![nested(inner)]) == (Ok::<Seq<Term>, Fault>(
            seq![nested(inner)],
        ), q + 1));
        assert(parse_items(s, p + 1, Seq::empty()) == (Ok::<Seq<Term>, Fault>(
            seq![nested(inner)],
        ), q + 1));
    }
}

/// Nesting follows the brackets: `n` opening `l` bytes followed by `n`
/// closing `e` bytes decode to `n` nested lists and use the whole input.
pub proof fn lemma_nesting(n: nat)
    requires
        n >= 1,
    ensures
        decode_spec(brackets(n)) == (Ok::<Term, Fault>(nested(n)), 2 * n as int),
{
    let s = brackets(n);
    assert forall|i: int| 0 <= i < n implies s[i] == LIST_START by {
        assert(s[i] == Seq::new(n, |_i: int| LIST_START)[i]);
    }
    assert forall|i: int| n <= i < 2 * n implies s[i] == END by {
        assert(s[i] == Seq::new(n, |_i: int| END)[i - n]);
    }
    lemma_parse_nested(s, 0, n);
}

} // verus!
