use vstd::prelude::*;

use crate::bytestring::ByteString;
use crate::grammar::{
    decimal, digits_of, enc, enc_bytes, enc_entries, enc_items, COLON, DICT_START, END,
    INT_START, LIST_START, MINUS, ZERO,
};
use crate::value::{lemma_view_items, view_items, BEncodingType, Dictionary, Term};

verus! {

/// Appending one more value to a run of encodings appends its encoding.
pub proof fn lemma_enc_items_push(items: Seq<Term>, t: Term)
    ensures
        enc_items(items.push(t)) == enc_items(items) + enc(t),
    decreases items.len(),
{
    let all = items.push(t);
    if items.len() == 0 {
        assert(all.drop_first() =~= Seq::<Term>::empty());
        assert(enc_items(all) =~= enc(t) + enc_items(Seq::<Term>::empty()));
        assert(enc_items(items) + enc(t) =~= enc(t));
    } else {
        lemma_enc_items_push(items.drop_first(), t);
        assert(all.drop_first() =~= items.drop_first().push(t));
        assert(enc_items(all) =~= enc(items[0]) + enc_items(items.drop_first().push(t)));
        assert(enc_items(items) + enc(t) =~= enc(items[0]) + (enc_items(items.drop_first())
            + enc(t)));
    }
}

/// Appending one more entry to a run of entries appends its encoding.
pub proof fn lemma_enc_entries_push(es: Seq<(Seq<u8>, Term)>, e: (Seq<u8>, Term))
    ensures
        enc_entries(es.push(e)) == enc_entries(es) + enc_bytes(e.0) + enc(e.1),
    decreases es.len(),
{
    let all = es.push(e);
    if es.len() == 0 {
        assert(all.drop_first() =~= Seq::<(Seq<u8>, Term)>::empty());
        assert(enc_entries(all) =~= enc_bytes(e.0) + enc(e.1) + enc_entries(
            Seq::<(Seq<u8>, Term)>::empty(),
        ));
        assert(enc_entries(es) + enc_bytes(e.0) + enc(e.1) =~= enc_bytes(e.0) + enc(e.1));
    } else {
        lemma_enc_entries_push(es.drop_first(), e);
        assert(all.drop_first() =~= es.drop_first().push(e));
        assert(enc_entries(all) =~= enc_bytes(es[0].0) + enc(es[0].1) + enc_entries(
            es.drop_first().push(e),
        ));
        assert(enc_entries(es) + enc_bytes(e.0) + enc(e.1) =~= enc_bytes(es[0].0) + enc(
            es[0].1,
        ) + (enc_entries(es.drop_first()) + enc_bytes(e.0) + enc(e.1)));
    }
}

/// Encodes a value into a fresh byte buffer.
pub fn encode(bencoded: BEncodingType) -> (r: Vec<u8>)
    ensures
        r@ == enc(bencoded@),
{
    let mut buf: Vec<u8> = Vec::new();
    encode_type(&bencoded, &mut buf);
    assert(buf@ =~= enc(bencoded@));
    buf
}

/// Appends the encoding of a value.
pub fn encode_type(bencoding: &BEncodingType, buf: &mut Vec<u8>)
    ensures
        final(buf)@ == old(buf)@ + enc(bencoding@),
    decreases bencoding@, 1int,
{
    match bencoding {
        BEncodingType::Integer(n) => encode_int(*n, buf),
        BEncodingType::String(bytes) => encode_bytestring(bytes, buf),
        BEncodingType::List(list) => encode_list(list, buf),
        BEncodingType::Dictionary(dict) => encode_dict(dict, buf),
    }
}

/// Appends `d`, each entry as its key's encoding then its value's, in the
/// dictionary's stored order, then `e`.
pub fn encode_dict(dict: &Dictionary, buf: &mut Vec<u8>)
    ensures
        final(buf)@ == old(buf)@ + enc(Term::Dict(dict@)),
    decreases Term::Dict(dict@), 0int,
{
    let ghost es = dict@;
    let entries = dict.entries();
    buf.push(DICT_START);
    let mut i: usize = 0;
    while i < entries.len()
        invariant
            i <= entries@.len(),
            es == dict@,
            entries@.len() == es.len(),
            forall|j: int|
                0 <= j < entries@.len() ==> (#[trigger] entries@[j]).0@ == es[j].0
                    && entries@[j].1@ == es[j].1,
            buf@ == old(buf)@ + seq![DICT_START] + enc_entries(es.take(i as int)),
        decreases entries@.len() - i,
    {
        let (key, val) = entries[i];
        proof {
            let t = Term::Dict(es);
            assert(decreases_to!(t => t->Dict_0));
            assert(decreases_to!(es => es[i as int]));
            assert(decreases_to!(es[i as int] => es[i as int].1));
            assert(val@ == es[i as int].1);
        }
        encode_bytestring(key, buf);
        encode_type(val, buf);
        proof {
            lemma_enc_entries_push(es.take(i as int), es[i as int]);
            assert(es.take(i + 1) =~= es.take(i as int).push(es[i as int]));
        }
        i = i + 1;
    }
    buf.push(END);
    assert(es.take(i as int) =~= es);
    assert(buf@ =~= old(buf)@ + enc(Term::Dict(es)));
}

/// Appends `l`, the encodings of the elements in order, then `e`.
pub fn encode_list(list: &Vec<BEncodingType>, buf: &mut Vec<u8>)
    ensures
        final(buf)@ == old(buf)@ + enc(Term::List(view_items(list@))),
    decreases Term::List(view_items(list@)), 0int,
{
    let ghost items = view_items(list@);
    proof {
        lemma_view_items(list@);
    }
    buf.push(LIST_START);
    let mut i: usize = 0;
    while i < list.len()
        invariant
            i <= list@.len(),
            items == view_items(list@),
            items.len() == list@.len(),
            forall|j: int| 0 <= j < list@.len() ==> #[trigger] items[j] == list@[j]@,
            buf@ == old(buf)@ + seq![LIST_START] + enc_items(items.take(i as int)),
        decreases list@.len() - i,
    {
        proof {
            let t = Term::List(items);
            assert(decreases_to!(t => t->List_0));
            assert(decreases_to!(items => items[i as int]));
        }
        encode_type(&list[i], buf);
        proof {
            lemma_enc_items_push(items.take(i as int), items[i as int]);
            assert(items.take(i + 1) =~= items.take(i as int).push(items[i as int]));
        }
        i = i + 1;
    }
    buf.push(END);
    assert(items.take(i as int) =~= items);
    assert(buf@ =~= old(buf)@ + enc(Term::List(items)));
}

/// Appends a byte string: its length in decimal, `:`, its bytes.
pub fn encode_bytestring(bs: &ByteString, buf: &mut Vec<u8>)
    ensures
        final(buf)@ == old(buf)@ + enc_bytes(bs@),
{
    encode_digits(bs.0.len() as u64, buf);
    buf.push(COLON);
    buf.extend_from_slice(bs.0.as_slice());
    assert(buf@ =~= old(buf)@ + enc_bytes(bs@));
}

/// Appends an integer: `i`, its decimal text, `e`.
pub fn encode_int(num: i64, buf: &mut Vec<u8>)
    ensures
        final(buf)@ == old(buf)@ + seq![INT_START] + decimal(num as int) + seq![END],
{
    buf.push(INT_START);
    encode_num(num, buf);
    buf.push(END);
    assert(buf@ =~= old(buf)@ + seq![INT_START] + decimal(num as int) + seq![END]);
}

/// Appends the decimal text of an integer, with `-` before a negative one.
pub fn encode_num(num: i64, buf: &mut Vec<u8>)
    ensures
        final(buf)@ == old(buf)@ + decimal(num as int),
{
    if num < 0 {
        buf.push(MINUS);
        let mag = (-(num as i128)) as u64;
        encode_digits(mag, buf);
        assert(buf@ =~= old(buf)@ + decimal(num as int));
    } else {
        encode_digits(num as u64, buf);
    }
}

/// Appends the decimal digits of a natural number, without leading zeros.
pub fn encode_digits(n: u64, buf: &mut Vec<u8>)
    ensures
        final(buf)@ == old(buf)@ + digits_of(n as nat),
    decreases n,
{
    if n >= 10 {
        encode_digits(n / 10, buf);
    }
    buf.push(ZERO + (n % 10) as u8);
    assert(buf@ =~= old(buf)@ + digits_of(n as nat));
}

} // verus!
