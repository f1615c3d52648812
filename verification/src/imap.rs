//! Insertion-ordered maps for genome node and connection tables.
//!
//! The genome keeps its nodes and connections in `indexmap::IndexMap`,
//! which preserves insertion order. The contents of such a map are modelled
//! as the sequence of its entries in insertion order (`nodes_seq`,
//! `conns_seq`); every method the genome logic calls is wrapped with a
//! contract over that sequence, taken from the indexmap documentation:
//! inserting an existing key updates its value in place, inserting a new
//! key appends the entry, and positional access follows insertion order.

use vstd::prelude::*;
use indexmap::IndexMap;
use std::collections::hash_map::RandomState;

verus! {

#[verifier::external_type_specification]
#[verifier::external_body]
#[verifier::reject_recursive_types(K)]
#[verifier::reject_recursive_types(V)]
#[verifier::reject_recursive_types(S)]
pub struct ExIndexMap<K, V, S>(IndexMap<K, V, S>);

/// The entries of a node table (node id, activation) in insertion order.
pub uninterp spec fn nodes_seq(m: IndexMap<u16, i64>) -> Seq<(u16, i64)>;

/// The entries of a connection table ((source, target), (weight, enabled))
/// in insertion order.
pub uninterp spec fn conns_seq(m: IndexMap<(u16, u16), (i64, bool)>) -> Seq<((u16, u16), (i64, bool))>;

/// Whether some entry of `s` carries the key `k`.
pub open spec fn has_key<K, V>(s: Seq<(K, V)>, k: K) -> bool {
    exists|i: int| 0 <= i < s.len() && s[i].0 == k
}

/// Every key occurs at most once.
pub open spec fn keys_unique<K, V>(s: Seq<(K, V)>) -> bool {
    forall|i: int, j: int|
        0 <= i < j < s.len() ==> s[i].0 != s[j].0
}

/// Relies on `IndexMap::new`: a fresh map is empty.
#[verifier::external_body]
pub(crate) fn nodes_new() -> (m: IndexMap<u16, i64>)
    ensures
        nodes_seq(m) == Seq::<(u16, i64)>::empty(),
{
    IndexMap::new()
}

/// Relies on `IndexMap::len`: the number of entries.
#[verifier::external_body]
pub(crate) fn nodes_len(m: &IndexMap<u16, i64>) -> (n: usize)
    ensures
        n == nodes_seq(*m).len(),
{
    m.len()
}

/// Relies on `IndexMap::insert`: an existing key keeps its place and its
/// value is replaced; a new key is appended, last in order.
#[verifier::external_body]
pub(crate) fn nodes_insert(m: &mut IndexMap<u16, i64>, k: u16, v: i64) -> (r: Option<i64>)
    ensures
        has_key(nodes_seq(*old(m)), k) ==> {
            forall|i: int|
                0 <= i < nodes_seq(*old(m)).len() && nodes_seq(*old(m))[i].0 == k ==> {
                    &&& nodes_seq(*final(m)) == nodes_seq(*old(m)).update(i, (k, v))
                    &&& r == Some(nodes_seq(*old(m))[i].1)
                }
        },
        !has_key(nodes_seq(*old(m)), k) ==> {
            &&& nodes_seq(*final(m)) == nodes_seq(*old(m)).push((k, v))
            &&& r is None
        },
{
    m.insert(k, v)
}

/// Relies on `IndexMap::get`: the value stored under `k`, if any.
#[verifier::external_body]
pub(crate) fn nodes_get(m: &IndexMap<u16, i64>, k: u16) -> (r: Option<i64>)
    ensures
        r is Some <==> has_key(nodes_seq(*m), k),
        forall|i: int|
            0 <= i < nodes_seq(*m).len() && nodes_seq(*m)[i].0 == k ==> r == Some(
                nodes_seq(*m)[i].1,
            ),
{
    m.get(&k).copied()
}

/// Relies on `IndexMap::contains_key`.
#[verifier::external_body]
pub(crate) fn nodes_contains(m: &IndexMap<u16, i64>, k: u16) -> (r: bool)
    ensures
        r == has_key(nodes_seq(*m), k),
{
    m.contains_key(&k)
}

/// Relies on `IndexMap::get_index`: the entry at a position in insertion
/// order.
#[verifier::external_body]
pub(crate) fn nodes_at(m: &IndexMap<u16, i64>, i: usize) -> (r: (u16, i64))
    requires
        i < nodes_seq(*m).len(),
    ensures
        r == nodes_seq(*m)[i as int],
{
    let (k, v) = m.get_index(i).unwrap();
    (*k, *v)
}

/// Relies on `IndexMap::get_index_mut`: replaces the value at a position,
/// leaving the key and the order unchanged.
#[verifier::external_body]
pub(crate) fn nodes_set_at(m: &mut IndexMap<u16, i64>, i: usize, v: i64)
    requires
        i < nodes_seq(*old(m)).len(),
    ensures
        nodes_seq(*final(m)) == nodes_seq(*old(m)).update(
            i as int,
            (nodes_seq(*old(m))[i as int].0, v),
        ),
{
    let (_, slot) = m.get_index_mut(i).unwrap();
    *slot = v;
}

/// Relies on `IndexMap::clone`: the copy holds the same entries in the
/// same order.
#[verifier::external_body]
pub(crate) fn nodes_clone(m: &IndexMap<u16, i64>) -> (r: IndexMap<u16, i64>)
    ensures
        nodes_seq(r) == nodes_seq(*m),
{
    m.clone()
}

/// Relies on `IndexMap::new`: a fresh map is empty.
#[verifier::external_body]
pub(crate) fn conns_new() -> (m: IndexMap<(u16, u16), (i64, bool)>)
    ensures
        conns_seq(m) == Seq::<((u16, u16), (i64, bool))>::empty(),
{
    IndexMap::new()
}

/// Relies on `IndexMap::len`: the number of entries.
#[verifier::external_body]
pub(crate) fn conns_len(m: &IndexMap<(u16, u16), (i64, bool)>) -> (n: usize)
    ensures
        n == conns_seq(*m).len(),
{
    m.len()
}

/// Relies on `IndexMap::insert`: an existing key keeps its place and its
/// value is replaced; a new key is appended, last in order.
#[verifier::external_body]
pub(crate) fn conns_insert(
    m: &mut IndexMap<(u16, u16), (i64, bool)>,
    k: (u16, u16),
    v: (i64, bool),
) -> (r: Option<(i64, bool)>)
    ensures
        has_key(conns_seq(*old(m)), k) ==> {
            forall|i: int|
                0 <= i < conns_seq(*old(m)).len() && conns_seq(*old(m))[i].0 == k ==> {
                    &&& conns_seq(*final(m)) == conns_seq(*old(m)).update(i, (k, v))
                    &&& r == Some(conns_seq(*old(m))[i].1)
                }
        },
        !has_key(conns_seq(*old(m)), k) ==> {
            &&& conns_seq(*final(m)) == conns_seq(*old(m)).push((k, v))
            &&& r is None
        },
{
    m.insert(k, v)
}

/// Relies on `IndexMap::get`: the value stored under `k`, if any.
#[verifier::external_body]
pub(crate) fn conns_get(m: &IndexMap<(u16, u16), (i64, bool)>, k: (u16, u16)) -> (r: Option<
    (i64, bool),
>)
    ensures
        r is Some <==> has_key(conns_seq(*m), k),
        forall|i: int|
            0 <= i < conns_seq(*m).len() && conns_seq(*m)[i].0 == k ==> r == Some(
                conns_seq(*m)[i].1,
            ),
{
    m.get(&k).copied()
}

/// Relies on `IndexMap::contains_key`.
#[verifier::external_body]
pub(crate) fn conns_contains(m: &IndexMap<(u16, u16), (i64, bool)>, k: (u16, u16)) -> (r: bool)
    ensures
        r == has_key(conns_seq(*m), k),
{
    m.contains_key(&k)
}

/// Relies on `IndexMap::get_index`: the entry at a position in insertion
/// order.
#[verifier::external_body]
pub(crate) fn conns_at(m: &IndexMap<(u16, u16), (i64, bool)>, i: usize) -> (r: (
    (u16, u16),
    (i64, bool),
))
    requires
        i < conns_seq(*m).len(),
    ensures
        r == conns_seq(*m)[i as int],
{
    let (k, v) = m.get_index(i).unwrap();
    (*k, *v)
}

/// Relies on `IndexMap::get_index_mut`: replaces the value at a position,
/// leaving the key and the order unchanged.
#[verifier::external_body]
pub(crate) fn conns_set_at(m: &mut IndexMap<(u16, u16), (i64, bool)>, i: usize, v: (i64, bool))
    requires
        i < conns_seq(*old(m)).len(),
    ensures
        conns_seq(*final(m)) == conns_seq(*old(m)).update(
            i as int,
            (conns_seq(*old(m))[i as int].0, v),
        ),
{
    let (_, slot) = m.get_index_mut(i).unwrap();
    *slot = v;
}

/// Relies on `IndexMap::clone`: the copy holds the same entries in the
/// same order.
#[verifier::external_body]
pub(crate) fn conns_clone(m: &IndexMap<(u16, u16), (i64, bool)>) -> (r: IndexMap<
    (u16, u16),
    (i64, bool),
>)
    ensures
        conns_seq(r) == conns_seq(*m),
{
    m.clone()
}

} // verus!
