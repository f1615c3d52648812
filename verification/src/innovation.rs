//! Innovation registry: stable, globally unique structural identifiers.
//!
//! Every connection key `(source, target)` that first appears anywhere in
//! the population is assigned the next value of a monotonically increasing
//! counter; asking again for the same key returns the same identifier, so
//! independently mutated genomes converge on identical identifiers for
//! identical structural events.

use vstd::prelude::*;
use std::collections::HashMap;

verus! {

broadcast use vstd::std_specs::hash::group_hash_axioms;

/// Packs a connection key into a single integer: the source id in the high
/// half, the target id in the low half.
pub open spec fn key_of(conn: (u16, u16)) -> u32 {
    (conn.0 as u32 * 0x10000 + conn.1 as u32) as u32
}

/// Packing is injective: two connection keys collide only if they are the
/// same pair.
pub proof fn lemma_key_of_injective(a: (u16, u16), b: (u16, u16))
    requires
        key_of(a) == key_of(b),
    ensures
        a == b,
{
    assert(a.0 == b.0 && a.1 == b.1) by (nonlinear_arith)
        requires
            a.0 as u32 * 0x10000 + a.1 as u32 == b.0 as u32 * 0x10000 + b.1 as u32,
            (a.1 as u32) < 0x10000,
            (b.1 as u32) < 0x10000,
    ;
}

/// Assigns stable identifiers to structural events.
pub struct InnovationCounter {
    /// The last identifier issued.
    pub count: u16,
    /// The identifiers assigned so far, keyed by packed connection key.
    pub connections: HashMap<u32, u16>,
}

impl InnovationCounter {
    /// The last identifier issued (or `start - 1` before any was issued).
    pub open spec fn counter(self) -> u16 {
        self.count
    }

    /// The identifiers assigned so far, keyed by packed connection key.
    pub open spec fn table(self) -> Map<u32, u16> {
        self.connections@
    }

    /// Every identifier issued so far is at most the counter, and distinct
    /// keys always carry distinct identifiers.
    pub open spec fn wf(self) -> bool {
        &&& (forall|k: u32| #[trigger]
            self.table().contains_key(k) ==> self.table()[k] <= self.counter())
        &&& (forall|k1: u32, k2: u32|
            #[trigger] self.table().contains_key(k1) && #[trigger] self.table().contains_key(k2)
                && k1 != k2 ==> self.table()[k1] != self.table()[k2])
    }

    /// Creates a registry whose first issued identifier will be `start`.
    pub fn new(start: u16) -> (r: InnovationCounter)
        requires
            start >= 1,
        ensures
            r.counter() == start - 1,
            r.table() == Map::<u32, u16>::empty(),
            r.wf(),
    {
        InnovationCounter { count: start - 1, connections: HashMap::new() }
    }

    /// The effect of `add` on the model: an already registered key leaves
    /// the registry unchanged and yields its recorded identifier; a fresh
    /// key is recorded under the next counter value.
    pub open spec fn add_spec(table: Map<u32, u16>, count: u16, conn: (u16, u16)) -> (
        Map<u32, u16>,
        u16,
        u16,
    ) {
        let k = key_of(conn);
        if table.contains_key(k) {
            (table, count, table[k])
        } else {
            (table.insert(k, (count + 1) as u16), (count + 1) as u16, (count + 1) as u16)
        }
    }

    /// Returns the identifier for `conn`, issuing a fresh one on first
    /// request.
    pub fn add(&mut self, conn: (u16, u16)) -> (id: u16)
        requires
            old(self).wf(),
            old(self).table().contains_key(key_of(conn)) || old(self).counter() < u16::MAX,
        ensures
            final(self).wf(),
            (final(self).table(), final(self).counter(), id) == Self::add_spec(
                old(self).table(),
                old(self).counter(),
                conn,
            ),
            final(self).counter() >= old(self).counter(),
            old(self).table().submap_of(final(self).table()),
    {
        let key: u32 = (conn.0 as u32) * 0x10000 + (conn.1 as u32);
        proof {
            assert(key == key_of(conn));
        }
        if let Some(innovation) = self.connections.get(&key) {
            return *innovation;
        }

        self.count = self.count + 1;
        self.connections.insert(key, self.count);

        assert(self.table() =~= old(self).table().insert(key_of(conn), self.count));
        self.count
    }

    /// Looks the key up without registering it.
    pub fn get(&self, conn: (u16, u16)) -> (r: Option<u16>)
        ensures
            r == if self.table().contains_key(key_of(conn)) {
                Some(self.table()[key_of(conn)])
            } else {
                None::<u16>
            },
    {
        let key: u32 = (conn.0 as u32) * 0x10000 + (conn.1 as u32);
        proof {
            assert(key == key_of(conn));
        }
        if let Some(innovation) = self.connections.get(&key) {
            Some(*innovation)
        } else {
            None
        }
    }

    /// How many fresh identifiers can still be issued.
    pub fn remaining(&self) -> (r: u16)
        ensures
            r == u16::MAX - self.counter(),
    {
        u16::MAX - self.count
    }
}

/// Asking twice for the same key yields the same identifier, whatever
/// happened to the registry in between, as long as it only grew.
pub proof fn lemma_add_idempotent(table: Map<u32, u16>, count: u16, conn: (u16, u16))
    requires
        count < u16::MAX,
    ensures
        ({
            let (t1, c1, id1) = InnovationCounter::add_spec(table, count, conn);
            let (t2, c2, id2) = InnovationCounter::add_spec(t1, c1, conn);
            id1 == id2 && t1 == t2 && c1 == c2
        }),
{
}

/// Two distinct fresh keys receive distinct identifiers, strictly
/// increasing in order of first request.
pub proof fn lemma_add_fresh_increasing(
    table: Map<u32, u16>,
    count: u16,
    first: (u16, u16),
    second: (u16, u16),
)
    requires
        count < u16::MAX - 1,
        first != second,
        !table.contains_key(key_of(first)),
        !table.contains_key(key_of(second)),
    ensures
        ({
            let (t1, c1, id1) = InnovationCounter::add_spec(table, count, first);
            let (t2, c2, id2) = InnovationCounter::add_spec(t1, c1, second);
            id1 < id2
        }),
{
    let (t1, c1, id1) = InnovationCounter::add_spec(table, count, first);
    if t1.contains_key(key_of(second)) {
        lemma_key_of_injective(first, second);
    }
}

} // verus!
