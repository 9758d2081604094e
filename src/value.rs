use vstd::prelude::*;

use linked_hash_map::LinkedHashMap;

use crate::bytestring::ByteString;

verus! {

/// The mathematical model of a decoded value.
pub enum Term {
    Int(i64),
    Bytes(Seq<u8>),
    List(Seq<Term>),
    /// Entries in their stored order.
    Dict(Seq<(Seq<u8>, Term)>),
}

/// A value tree: the decoder's output and the encoder's input.
#[derive(Debug, PartialEq, Eq)]
pub enum BEncodingType {
    Integer(i64),
    String(ByteString),
    List(Vec<BEncodingType>),
    Dictionary(Dictionary),
}

/// A dictionary that keeps its entries in insertion order (inserting a key
/// again moves it last), backed by `linked_hash_map::LinkedHashMap`.
#[verifier::external_body]
#[derive(Debug, PartialEq, Eq)]
pub struct Dictionary {
    map: LinkedHashMap<ByteString, BEncodingType>,
}

/// The entries of a dictionary, in iteration order, each key by its bytes
/// and each value by its model.
pub uninterp spec fn dict_entries(d: Dictionary) -> Seq<(Seq<u8>, Term)>;

/// Whether `k` is the key of some entry.
pub open spec fn has_key(es: Seq<(Seq<u8>, Term)>, k: Seq<u8>) -> bool {
    exists|i: int| 0 <= i < es.len() && #[trigger] es[i].0 == k
}

/// The entries after inserting `k` with `v` into a map that keeps insertion
/// order: an existing entry of `k` is removed and the new entry goes last.
pub open spec fn entries_insert(
    es: Seq<(Seq<u8>, Term)>,
    k: Seq<u8>,
    v: Term,
) -> Seq<(Seq<u8>, Term)> {
    es.filter(key_differs(k)).push((k, v))
}

/// Whether an entry's key differs from `k`.
pub open spec fn key_differs(k: Seq<u8>) -> spec_fn((Seq<u8>, Term)) -> bool {
    |e: (Seq<u8>, Term)| e.0 != k
}

/// Inserting a key that is not yet present appends the entry.
pub proof fn lemma_insert_new_key(es: Seq<(Seq<u8>, Term)>, k: Seq<u8>, v: Term)
    requires
        !has_key(es, k),
    ensures
        es.filter(key_differs(k)) == es,
        entries_insert(es, k, v) == es.push((k, v)),
    decreases es.len(),
{
    reveal(Seq::filter);
    if es.len() > 0 {
        let init = es.drop_last();
        assert forall|i: int| 0 <= i < init.len() implies #[trigger] init[i].0 != k by {
            assert(es[i] == init[i]);
        }
        lemma_insert_new_key(init, k, v);
        assert(es.last().0 != k);
        assert(es.filter(key_differs(k)) =~= init.push(es.last()));
        assert(init.push(es.last()) =~= es);
    }
}

/// No key occurs twice.
pub open spec fn keys_unique(es: Seq<(Seq<u8>, Term)>) -> bool {
    forall|i: int, j: int| 0 <= i < j < es.len() ==> es[i].0 != es[j].0
}

/// Removing the entries of `k` keeps the remaining keys unique and keeps
/// only entries that were there.
pub proof fn lemma_filter_key(es: Seq<(Seq<u8>, Term)>, k: Seq<u8>)
    requires
        keys_unique(es),
    ensures
        keys_unique(es.filter(key_differs(k))),
        forall|i: int|
            0 <= i < es.filter(key_differs(k)).len() ==> (#[trigger] es.filter(key_differs(k))[i]).0
                != k && es.contains(es.filter(key_differs(k))[i]),
    decreases es.len(),
{
    reveal(Seq::filter);
    if es.len() > 0 {
        let init = es.drop_last();
        let last = es.last();
        let sub = init.filter(key_differs(k));
        assert(keys_unique(init)) by {
            assert forall|i: int, j: int| 0 <= i < j < init.len() implies init[i].0 != init[j].0 by {
                assert(init[i] == es[i] && init[j] == es[j]);
            }
        }
        lemma_filter_key(init, k);
        assert forall|i: int| 0 <= i < sub.len() implies es.contains(#[trigger] sub[i]) by {
            let j = choose|j: int| 0 <= j < init.len() && init[j] == sub[i];
            assert(es[j] == init[j]);
        }
        if last.0 != k {
            let out = sub.push(last);
            assert(es.filter(key_differs(k)) == out);
            assert forall|i: int| 0 <= i < sub.len() implies (#[trigger] sub[i]).0 != last.0 by {
                let j = choose|j: int| 0 <= j < init.len() && init[j] == sub[i];
                assert(es[j] == init[j]);
            }
            assert forall|i: int, j: int| 0 <= i < j < out.len() implies out[i].0 != out[j].0 by {
                if j < sub.len() {
                    assert(out[i] == sub[i] && out[j] == sub[j]);
                } else {
                    assert(out[i] == sub[i]);
                }
            }
            assert forall|i: int| 0 <= i < out.len() implies (#[trigger] out[i]).0 != k
                && es.contains(out[i]) by {
                if i < sub.len() {
                    assert(out[i] == sub[i]);
                } else {
                    assert(es[es.len() - 1] == last);
                }
            }
        }
    }
}

/// Inserting into a dictionary with unique keys keeps its keys unique; each
/// entry afterwards is the new one or was there before.
pub proof fn lemma_insert_unique(es: Seq<(Seq<u8>, Term)>, k: Seq<u8>, v: Term)
    requires
        keys_unique(es),
    ensures
        keys_unique(entries_insert(es, k, v)),
        forall|i: int|
            0 <= i < entries_insert(es, k, v).len() ==> #[trigger] entries_insert(es, k, v)[i] == (
            k,
            v,
        ) || es.contains(entries_insert(es, k, v)[i]),
{
    lemma_filter_key(es, k);
    let sub = es.filter(key_differs(k));
    let out = sub.push((k, v));
    assert forall|i: int, j: int| 0 <= i < j < out.len() implies out[i].0 != out[j].0 by {
        assert(out[i] == sub[i]);
        if j < sub.len() {
            assert(out[j] == sub[j]);
        }
    }
    assert forall|i: int| 0 <= i < out.len() implies #[trigger] out[i] == (k, v) || es.contains(
        out[i],
    ) by {
        if i < sub.len() {
            assert(out[i] == sub[i]);
        }
    }
}

/// Every dictionary in the tree has unique keys.
pub open spec fn well_formed(t: Term) -> bool
    decreases t,
{
    match t {
        Term::Int(_) => true,
        Term::Bytes(_) => true,
        Term::List(items) => forall|i: int| 0 <= i < items.len() ==> well_formed(#[trigger] items[i]),
        Term::Dict(es) => keys_unique(es) && forall|i: int|
            0 <= i < es.len() ==> well_formed(#[trigger] es[i].1),
    }
}

impl View for BEncodingType {
    type V = Term;

    open spec fn view(&self) -> Term
        decreases self,
    {
        match self {
            BEncodingType::Integer(i) => Term::Int(*i),
            BEncodingType::String(b) => Term::Bytes(b@),
            BEncodingType::List(items) => Term::List(view_items(items@)),
            BEncodingType::Dictionary(d) => Term::Dict(d@),
        }
    }
}

/// The models of a sequence of values.
pub open spec fn view_items(items: Seq<BEncodingType>) -> Seq<Term>
    decreases items,
{
    if items.len() == 0 {
        Seq::empty()
    } else {
        view_items(items.drop_last()).push(items.last()@)
    }
}

pub proof fn lemma_view_items(items: Seq<BEncodingType>)
    ensures
        view_items(items).len() == items.len(),
        forall|i: int| 0 <= i < items.len() ==> #[trigger] view_items(items)[i] == items[i]@,
    decreases items.len(),
{
    if items.len() > 0 {
        let init = items.drop_last();
        lemma_view_items(init);
        assert(view_items(items) == view_items(init).push(items.last()@));
        assert forall|i: int| 0 <= i < items.len() implies #[trigger] view_items(items)[i]
            == items[i]@ by {
            if i < init.len() {
                assert(init[i] == items[i]);
            }
        }
    }
}

impl View for Dictionary {
    type V = Seq<(Seq<u8>, Term)>;

    open spec fn view(&self) -> Seq<(Seq<u8>, Term)> {
        dict_entries(*self)
    }
}

/// Relies on `LinkedHashMap::new`: the map starts empty.
#[verifier::external_body]
fn empty_map() -> (r: Dictionary)
    ensures
        dict_entries(r) == Seq::<(Seq<u8>, Term)>::empty(),
{
    Dictionary { map: LinkedHashMap::new() }
}

/// Relies on `LinkedHashMap::insert`: a new key is attached last; an existing
/// key gets the new value and is moved last.
#[verifier::external_body]
fn map_insert(d: &mut Dictionary, k: ByteString, v: BEncodingType)
    ensures
        dict_entries(*final(d)) == entries_insert(dict_entries(*old(d)), k@, v@),
{
    d.map.insert(k, v);
}

/// Relies on `LinkedHashMap::iter`: the entries in their stored order.
#[verifier::external_body]
fn map_entries(d: &Dictionary) -> (r: Vec<(&ByteString, &BEncodingType)>)
    ensures
        r@.len() == dict_entries(*d).len(),
        forall|i: int|
            0 <= i < r@.len() ==> (#[trigger] r@[i]).0@ == dict_entries(*d)[i].0 && r@[i].1@
                == dict_entries(*d)[i].1,
{
    d.map.iter().collect()
}

impl Dictionary {
    pub fn new() -> (r: Dictionary)
        ensures
            r@ == Seq::<(Seq<u8>, Term)>::empty(),
    {
        empty_map()
    }

    /// Inserts an entry. A new key goes last; an existing key takes the new
    /// value and moves last.
    pub fn insert(&mut self, k: ByteString, v: BEncodingType)
        ensures
            final(self)@ == entries_insert(old(self)@, k@, v@),
    {
        map_insert(self, k, v)
    }

    /// The entries in their stored order.
    pub fn entries(&self) -> (r: Vec<(&ByteString, &BEncodingType)>)
        ensures
            r@.len() == self@.len(),
            forall|i: int|
                0 <= i < r@.len() ==> (#[trigger] r@[i]).0@ == self@[i].0 && r@[i].1@
                    == self@[i].1,
    {
        map_entries(self)
    }
}

} // verus!
