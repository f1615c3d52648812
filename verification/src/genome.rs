//! The evolvable genotype: a node table and a connection table, plus the
//! structural mutation and genetic operators.
//!
//! Nodes are identified by `u16` ids whose meaning is shared across the
//! whole population: ids `0..inputs` are the reserved inputs, ids
//! `inputs..inputs + outputs` the reserved outputs, and every higher id is
//! a hidden node created by splitting a connection, assigned through the
//! innovation registry so that the same structural event yields the same
//! id in every genome. Both tables keep insertion order, which fixes the
//! positional meaning of the first `inputs + outputs` nodes.

use vstd::prelude::*;
use indexmap::IndexMap;

use crate::innovation::InnovationCounter;
use crate::innovation::key_of;
use crate::rng;
use crate::settings::NeatSettings;

use crate::imap::conns_at;
use crate::imap::conns_clone;
use crate::imap::conns_contains;
use crate::imap::conns_get;
use crate::imap::conns_insert;
use crate::imap::conns_len;
use crate::imap::conns_new;
use crate::imap::conns_seq;
use crate::imap::has_key;
use crate::imap::keys_unique;
use crate::imap::nodes_at;
use crate::imap::nodes_clone;
use crate::imap::nodes_contains;
use crate::imap::nodes_get;
use crate::imap::nodes_insert;
use crate::imap::nodes_len;
use crate::imap::nodes_new;
use crate::imap::nodes_seq;

verus! {

/// Activation coefficient every fresh node starts with (4.9 units).
pub const DEFAULT_ACTIVATION: i64 = 4_900_000;

/// The index of some entry of `s` that carries the key `k`.
pub open spec fn key_at<K, V>(s: Seq<(K, V)>, k: K) -> int {
    choose|i: int| 0 <= i < s.len() && s[i].0 == k
}

/// The value stored under key `k`.
pub open spec fn val_of<K, V>(s: Seq<(K, V)>, k: K) -> V {
    s[key_at(s, k)].1
}

/// What inserting into an insertion-ordered table does to its entries: an
/// existing key keeps its place and gets the new value, a fresh key is
/// appended.
pub open spec fn upsert<K, V>(s: Seq<(K, V)>, k: K, v: V) -> Seq<(K, V)> {
    if has_key(s, k) {
        s.update(key_at(s, k), (k, v))
    } else {
        s.push((k, v))
    }
}

/// Facts about `upsert` that the structural operators lean on.
pub proof fn lemma_upsert<K, V>(s: Seq<(K, V)>, k: K, v: V)
    ensures
        s.len() <= upsert(s, k, v).len() <= s.len() + 1,
        forall|i: int| 0 <= i < s.len() ==> (#[trigger] upsert(s, k, v)[i]).0 == s[i].0,
        has_key(upsert(s, k, v), k),
        val_of(upsert(s, k, v), k) == v || !keys_unique(s),
        forall|k2: K| has_key(s, k2) ==> has_key(upsert(s, k, v), k2),
        keys_unique(s) ==> keys_unique(upsert(s, k, v)),
{
    let t = upsert(s, k, v);
    if has_key(s, k) {
        let i = key_at(s, k);
        assert(0 <= i < s.len() && s[i].0 == k);
        assert(t[i] == (k, v));
        assert(has_key(t, k));
        if keys_unique(s) {
            lemma_unique_update(s, i, v);
            lemma_key_at(t, i);
        }
        assert forall|k2: K| has_key(s, k2) implies has_key(t, k2) by {
            let j = key_at(s, k2);
            assert(t[j].0 == k2);
        }
    } else {
        assert(t[s.len() as int] == (k, v));
        assert(has_key(t, k));
        if keys_unique(s) {
            lemma_unique_push(s, k, v);
            lemma_key_at(t, s.len() as int);
        }
        assert forall|k2: K| has_key(s, k2) implies has_key(t, k2) by {
            let j = key_at(s, k2);
            assert(t[j].0 == k2);
        }
    }
}

/// With unique keys, `key_at` finds exactly the entry the key sits in.
pub proof fn lemma_key_at<K, V>(s: Seq<(K, V)>, i: int)
    requires
        keys_unique(s),
        0 <= i < s.len(),
    ensures
        key_at(s, s[i].0) == i,
        val_of(s, s[i].0) == s[i].1,
{
    let k = s[i].0;
    assert(has_key(s, k));
    let j = key_at(s, k);
    assert(0 <= j < s.len() && s[j].0 == k);
    if i < j {
        assert(s[i].0 != s[j].0);
    } else if j < i {
        assert(s[j].0 != s[i].0);
    }
}

/// Updating an entry's value in place keeps the keys unique.
proof fn lemma_unique_update<K, V>(s: Seq<(K, V)>, i: int, v: V)
    requires
        keys_unique(s),
        0 <= i < s.len(),
    ensures
        keys_unique(s.update(i, (s[i].0, v))),
{
    let t = s.update(i, (s[i].0, v));
    assert forall|p: int, q: int| 0 <= p < q < t.len() implies t[p].0 != t[q].0 by {
        assert(t[p].0 == s[p].0);
        assert(t[q].0 == s[q].0);
    }
}

/// Appending an entry under a fresh key keeps the keys unique.
proof fn lemma_unique_push<K, V>(s: Seq<(K, V)>, k: K, v: V)
    requires
        keys_unique(s),
        !has_key(s, k),
    ensures
        keys_unique(s.push((k, v))),
{
    let t = s.push((k, v));
    assert forall|p: int, q: int| 0 <= p < q < t.len() implies t[p].0 != t[q].0 by {
        if q < s.len() {
        } else {
            assert(t[q].0 == k);
            assert(t[p].0 == s[p].0);
        }
    }
}

/// One pass of the species distance over the first `n` connections of
/// `a`: counts the keys missing from `b` and sums (saturating) the
/// absolute weight differences on shared keys.
pub open spec fn species_accum(
    a: Seq<((u16, u16), (i64, bool))>,
    b: Seq<((u16, u16), (i64, bool))>,
    n: int,
) -> (int, int)
    decreases n,
{
    if n <= 0 {
        (0, 0)
    } else {
        let (c, w) = species_accum(a, b, n - 1);
        let key = a[n - 1].0;
        if has_key(b, key) {
            (
                c,
                crate::num::sat_add_spec(
                    w,
                    crate::num::abs_diff_spec(a[n - 1].1.0 as int, val_of(b, key).0 as int),
                ),
            )
        } else {
            (c + 1, w)
        }
    }
}

/// How many of the first `n` keys of `b` are missing from `a`.
pub open spec fn missing_count(
    b: Seq<((u16, u16), (i64, bool))>,
    a: Seq<((u16, u16), (i64, bool))>,
    n: int,
) -> int
    decreases n,
{
    if n <= 0 {
        0
    } else {
        missing_count(b, a, n - 1) + if has_key(a, b[n - 1].0) {
            0int
        } else {
            1int
        }
    }
}

/// The disjoint-connection term: `(c * cd) / size`, truncated toward zero
/// and clipped to the `i64` range; zero when both genomes are empty.
pub open spec fn scaled_count_term(c: int, cd: int, size: int) -> int {
    if size == 0 {
        0
    } else if cd >= 0 {
        crate::num::clip((c * cd) / size)
    } else {
        crate::num::clip(-((c * -cd) / size))
    }
}

/// The species distance over two connection tables:
/// `(c_diff * connections_diff) / max(|a|, |b|) + w_diff * weight_diff`,
/// in saturating fixed-point arithmetic.
pub open spec fn species_distance(
    a: Seq<((u16, u16), (i64, bool))>,
    b: Seq<((u16, u16), (i64, bool))>,
    settings: NeatSettings,
) -> int {
    let (c1, w) = species_accum(a, b, a.len() as int);
    let c2 = missing_count(b, a, b.len() as int);
    let size = if a.len() >= b.len() {
        a.len() as int
    } else {
        b.len() as int
    };
    crate::num::sat_add_spec(
        scaled_count_term(c1 + c2, settings.connections_diff as int, size),
        crate::num::fx_mul_spec(w, settings.weight_diff as int),
    )
}

/// Whether `k` is an endpoint of one of the first `c` connections.
pub open spec fn endpoint_of(conns: Seq<((u16, u16), (i64, bool))>, k: u16, c: int) -> bool {
    exists|i: int| 0 <= i < c && ((#[trigger] conns[i]).0.0 == k || conns[i].0.1 == k)
}

/// Two genomes are the same species when their distance is below the
/// threshold.
pub open spec fn same_species_spec(a: Genome, b: Genome, settings: NeatSettings) -> bool {
    species_distance(a.cview(), b.cview(), settings) < settings.species_threshold
}

/// The evolvable description of a network: nodes, connections and the
/// fixed input/output counts.
pub struct Genome {
    /// Number of input nodes; their ids are `0..inputs`.
    pub inputs: u16,
    /// Number of output nodes; their ids are `inputs..inputs + outputs`.
    pub outputs: u16,
    /// Node id to activation coefficient, in insertion order.
    pub nodes: IndexMap<u16, i64>,
    /// Connection key `(source, target)` to `(weight, enabled)`, in
    /// insertion order.
    pub connections: IndexMap<(u16, u16), (i64, bool)>,
}

impl Genome {
    /// The node entries in insertion order.
    pub open spec fn nview(self) -> Seq<(u16, i64)> {
        nodes_seq(self.nodes)
    }

    /// The connection entries in insertion order.
    pub open spec fn cview(self) -> Seq<((u16, u16), (i64, bool))> {
        conns_seq(self.connections)
    }

    /// Whether `index` (a position in the node table) denotes a reserved
    /// output node.
    pub open spec fn is_output_spec(self, index: int) -> bool {
        self.inputs <= index < self.inputs + self.outputs
    }

    /// Structural soundness: keys are unique, the reserved nodes sit at
    /// the head of the node table under their own ids, and every
    /// connection's endpoints exist in the node table.
    pub open spec fn wf(self) -> bool {
        &&& keys_unique(self.nview())
        &&& keys_unique(self.cview())
        &&& self.inputs + self.outputs <= u16::MAX
        &&& self.nview().len() >= self.inputs + self.outputs
        &&& (forall|j: int|
            0 <= j < self.inputs + self.outputs ==> (#[trigger] self.nview()[j]).0 == j)
        &&& (forall|i: int|
            0 <= i < self.cview().len() ==> has_key(
                self.nview(),
                (#[trigger] self.cview()[i]).0.0,
            ) && has_key(self.nview(), self.cview()[i].0.1))
    }

    /// Builds the minimal genome: the reserved input and output nodes with
    /// the default activation coefficient and no connections.
    pub fn new(inputs: u16, outputs: u16) -> (g: Genome)
        requires
            inputs + outputs <= u16::MAX,
        ensures
            g.wf(),
            g.inputs == inputs,
            g.outputs == outputs,
            g.nview().len() == inputs + outputs,
            forall|j: int|
                0 <= j < inputs + outputs ==> #[trigger] g.nview()[j] == (
                    j as u16,
                    DEFAULT_ACTIVATION,
                ),
            g.cview() =~= Seq::<((u16, u16), (i64, bool))>::empty(),
    {
        let total: u16 = inputs + outputs;
        let mut nodes: IndexMap<u16, i64> = nodes_new();
        let mut id: u16 = 0;
        while id < total
            invariant
                id <= total,
                nodes_seq(nodes).len() == id,
                forall|j: int|
                    0 <= j < id ==> #[trigger] nodes_seq(nodes)[j] == (
                        j as u16,
                        DEFAULT_ACTIVATION,
                    ),
            decreases total - id,
        {
            proof {
                assert(!has_key(nodes_seq(nodes), id)) by {
                    assert forall|j: int|
                        0 <= j < nodes_seq(nodes).len() implies (#[trigger] nodes_seq(
                        nodes,
                    )[j]).0 != id by {
                        assert(nodes_seq(nodes)[j] == (j as u16, DEFAULT_ACTIVATION));
                    }
                }
            }
            nodes_insert(&mut nodes, id, DEFAULT_ACTIVATION);
            id = id + 1;
        }
        let g = Genome { inputs, outputs, nodes, connections: conns_new() };
        proof {
            assert(keys_unique(g.nview())) by {
                assert forall|p: int, q: int|
                    0 <= p < q < g.nview().len() implies (#[trigger] g.nview()[p]).0 != (
                    #[trigger] g.nview()[q]).0 by {
                    assert(g.nview()[p] == (p as u16, DEFAULT_ACTIVATION));
                    assert(g.nview()[q] == (q as u16, DEFAULT_ACTIVATION));
                }
            }
        }
        g
    }

    /// Whether a node-table position denotes a reserved output node.
    fn is_output(&self, index: usize) -> (r: bool)
        requires
            self.inputs + self.outputs <= u16::MAX,
        ensures
            r == self.is_output_spec(index as int),
    {
        index >= self.inputs as usize && index < self.inputs as usize + self.outputs as usize
    }

    /// Sets a node's activation coefficient, creating the node if needed.
    /// New nodes are appended after the existing ones, so the reserved
    /// head of the table keeps its meaning.
    pub fn insert_node(&mut self, id: u16, activation: i64)
        ensures
            final(self).inputs == old(self).inputs,
            final(self).outputs == old(self).outputs,
            final(self).cview() == old(self).cview(),
            has_key(old(self).nview(), id) ==> final(self).nview() == old(self).nview().update(
                key_at(old(self).nview(), id),
                (id, activation),
            ),
            !has_key(old(self).nview(), id) ==> final(self).nview() == old(self).nview().push(
                (id, activation),
            ),
            keys_unique(old(self).nview()) ==> keys_unique(final(self).nview()),
            has_key(final(self).nview(), id),
            forall|k: u16| has_key(old(self).nview(), k) ==> has_key(final(self).nview(), k),
            old(self).wf() ==> final(self).wf(),
    {
        proof {
            if has_key(old(self).nview(), id) {
                let i = key_at(old(self).nview(), id);
                assert(0 <= i < old(self).nview().len() && old(self).nview()[i].0 == id);
            }
        }
        nodes_insert(&mut self.nodes, id, activation);
        proof {
            let s0 = old(self).nview();
            let s1 = self.nview();
            if has_key(s0, id) {
                let i = key_at(s0, id);
                assert(s1 == s0.update(i, (id, activation)));
                assert(s1[i].0 == id);
                assert(has_key(s1, id));
                if keys_unique(s0) {
                    assert(s0[i].0 == id);
                    lemma_unique_update(s0, i, activation);
                }
                assert forall|k: u16| has_key(s0, k) implies has_key(s1, k) by {
                    let j = key_at(s0, k);
                    assert(s1[j].0 == k);
                }
            } else {
                assert(s1 == s0.push((id, activation)));
                assert(s1[s0.len() as int].0 == id);
                assert(has_key(s1, id));
                if keys_unique(s0) {
                    lemma_unique_push(s0, id, activation);
                }
                assert forall|k: u16| has_key(s0, k) implies has_key(s1, k) by {
                    let j = key_at(s0, k);
                    assert(s1[j].0 == k);
                }
            }
            if old(self).wf() {
                assert forall|j: int|
                    0 <= j < self.inputs + self.outputs implies (#[trigger] s1[j]).0 == j by {
                    assert(s0[j].0 == j);
                }
                assert forall|i: int|
                    0 <= i < self.cview().len() implies has_key(
                    s1,
                    (#[trigger] self.cview()[i]).0.0,
                ) && has_key(s1, self.cview()[i].0.1) by {
                    assert(has_key(s0, self.cview()[i].0.0));
                    assert(has_key(s0, self.cview()[i].0.1));
                }
            }
        }
    }

    /// Sets a connection's weight and enabled flag, creating the
    /// connection if needed. The endpoints need not exist in the node
    /// table; the species-distance comparison works on such tables too,
    /// but a genome handed to the structural operators or compiled into a
    /// network must be well-formed.
    pub fn insert_connection(&mut self, source: u16, target: u16, weight: i64, enabled: bool)
        ensures
            final(self).inputs == old(self).inputs,
            final(self).outputs == old(self).outputs,
            final(self).nview() == old(self).nview(),
            has_key(old(self).cview(), (source, target)) ==> final(self).cview() == old(
                self,
            ).cview().update(
                key_at(old(self).cview(), (source, target)),
                ((source, target), (weight, enabled)),
            ),
            !has_key(old(self).cview(), (source, target)) ==> final(self).cview() == old(
                self,
            ).cview().push(((source, target), (weight, enabled))),
            keys_unique(old(self).cview()) ==> keys_unique(final(self).cview()),
            has_key(final(self).cview(), (source, target)),
    {
        proof {
            if has_key(old(self).cview(), (source, target)) {
                let i = key_at(old(self).cview(), (source, target));
                assert(0 <= i < old(self).cview().len() && old(self).cview()[i].0 == (
                    source,
                    target,
                ));
            }
        }
        conns_insert(&mut self.connections, (source, target), (weight, enabled));
        proof {
            let s0 = old(self).cview();
            let s1 = self.cview();
            if has_key(s0, (source, target)) {
                let i = key_at(s0, (source, target));
                assert(s1 == s0.update(i, ((source, target), (weight, enabled))));
                assert(s1[i].0 == (source, target));
                if keys_unique(s0) {
                    lemma_unique_update(s0, i, (weight, enabled));
                }
            } else {
                assert(s1 == s0.push(((source, target), (weight, enabled))));
                assert(s1[s0.len() as int].0 == (source, target));
                if keys_unique(s0) {
                    lemma_unique_push(s0, (source, target), (weight, enabled));
                }
            }
        }
    }

    /// Every connection key of this genome has an identifier in the
    /// registry.
    pub open spec fn registered_in(self, reg: InnovationCounter) -> bool {
        forall|i: int|
            0 <= i < self.cview().len() ==> reg.table().contains_key(
                key_of((#[trigger] self.cview()[i]).0),
            )
    }

    /// The candidate connection key named by two node-table positions.
    pub open spec fn conn_endpoints(self, si: int, ti: int) -> (u16, u16) {
        (self.nview()[si].0, self.nview()[ti].0)
    }

    /// Whether the structural rules reject the candidate connection:
    /// a self-loop, a connection between two outputs, or (under
    /// `feedforward`) a connection whose reverse already exists.
    pub open spec fn add_conn_rejected(self, settings: NeatSettings, si: int, ti: int) -> bool {
        ||| si == ti
        ||| (self.is_output_spec(si) && self.is_output_spec(ti))
        ||| (settings.feedforward && has_key(
            self.cview(),
            (self.conn_endpoints(si, ti).1, self.conn_endpoints(si, ti).0),
        ))
    }

    /// Attempts to connect the node at position `source_index` to the node
    /// at position `target_index` with the given initial weight. Rejected
    /// candidates leave the genome untouched; an existing connection is
    /// re-enabled with its weight kept; a genuinely new connection is
    /// appended, enabled, and registered with the innovation registry. A
    /// new connection is also rejected when the registry has no
    /// identifiers left.
    pub fn add_connection_with(
        &mut self,
        innovations: &mut InnovationCounter,
        settings: &NeatSettings,
        source_index: usize,
        target_index: usize,
        weight: i64,
    ) -> (applied: bool)
        requires
            old(self).wf(),
            old(innovations).wf(),
            old(self).registered_in(*old(innovations)),
            source_index < old(self).nview().len(),
            old(self).inputs <= target_index < old(self).nview().len(),
        ensures
            final(self).wf(),
            final(innovations).wf(),
            final(self).inputs == old(self).inputs,
            final(self).outputs == old(self).outputs,
            final(self).nview() == old(self).nview(),
            final(self).registered_in(*final(innovations)),
            old(innovations).table().submap_of(final(innovations).table()),
            final(innovations).counter() >= old(innovations).counter(),
            forall|k: u32|
                final(innovations).table().contains_key(k) && !old(innovations).table().contains_key(
                    k,
                ) ==> #[trigger] final(innovations).table()[k] > old(innovations).counter(),
            ({
                let g = *old(self);
                let key = g.conn_endpoints(source_index as int, target_index as int);
                if g.add_conn_rejected(*settings, source_index as int, target_index as int) {
                    &&& !applied
                    &&& final(self).cview() == g.cview()
                    &&& *final(innovations) == *old(innovations)
                } else if has_key(g.cview(), key) {
                    &&& applied
                    &&& final(self).cview() == g.cview().update(
                        key_at(g.cview(), key),
                        (key, (val_of(g.cview(), key).0, true)),
                    )
                    &&& *final(innovations) == *old(innovations)
                } else if old(innovations).counter() == u16::MAX {
                    &&& !applied
                    &&& final(self).cview() == g.cview()
                    &&& *final(innovations) == *old(innovations)
                } else {
                    &&& applied
                    &&& final(self).cview() == g.cview().push((key, (weight, true)))
                    &&& ({
                        let (t2, c2, _id) = InnovationCounter::add_spec(
                            old(innovations).table(),
                            old(innovations).counter(),
                            key,
                        );
                        final(innovations).table() == t2 && final(innovations).counter() == c2
                    })
                }
            }),
    {
        if source_index == target_index || (self.is_output(source_index) && self.is_output(
            target_index,
        )) {
            return false;
        }
        let source_node = self.node_at(source_index);
        let target_node = self.node_at(target_index);
        let s_id = source_node.0;
        let t_id = target_node.0;

        if settings.feedforward && conns_contains(&self.connections, (t_id, s_id)) {
            return false;
        }

        let existing = conns_get(&self.connections, (s_id, t_id));
        if let Some(info) = existing {
            proof {
                let s0 = self.cview();
                let i = key_at(s0, (s_id, t_id));
                assert(0 <= i < s0.len() && s0[i].0 == (s_id, t_id));
                lemma_key_at(s0, i);
            }
            self.insert_connection(s_id, t_id, info.0, true);
            proof {
                let s0 = old(self).cview();
                let s1 = self.cview();
                assert forall|i: int|
                    0 <= i < s1.len() implies has_key(self.nview(), (#[trigger] s1[i]).0.0)
                    && has_key(self.nview(), s1[i].0.1) by {
                    assert(s1[i].0 == s0[i].0);
                }
            }
            return true;
        }

        if innovations.remaining() == 0 {
            return false;
        }
        self.insert_connection(s_id, t_id, weight, true);
        innovations.add((s_id, t_id));
        proof {
            let s0 = old(self).cview();
            let s1 = self.cview();
            assert(s1 == s0.push(((s_id, t_id), (weight, true))));
            assert forall|i: int|
                0 <= i < s1.len() implies has_key(self.nview(), (#[trigger] s1[i]).0.0) && has_key(
                self.nview(),
                s1[i].0.1,
            ) by {
                if i < s0.len() {
                    assert(s1[i] == s0[i]);
                } else {
                    assert(s1[i].0 == (s_id, t_id));
                    assert(has_key(old(self).nview(), s_id));
                    assert(has_key(old(self).nview(), t_id));
                }
            }
            assert forall|i: int|
                0 <= i < s1.len() implies final(innovations).table().contains_key(
                key_of((#[trigger] s1[i]).0),
            ) by {
                if i < s0.len() {
                    assert(s1[i] == s0[i]);
                    assert(old(innovations).table().contains_key(key_of(s0[i].0)));
                } else {
                    assert(s1[i].0 == (s_id, t_id));
                }
            }
        }
        true
    }

    /// Attempts one random structural connection mutation: a random source
    /// position, a random non-input target position and a random weight
    /// from `[-settings.weight, settings.weight)`; the candidate is then
    /// judged by the structural rules. Whatever the random draws, the node
    /// table is untouched, existing connections keep their key and weight
    /// (an existing connection can only become enabled), at most one new
    /// enabled connection is appended, and a rejected attempt changes
    /// nothing.
    pub fn add_connection(
        &mut self,
        innovations: &mut InnovationCounter,
        settings: &NeatSettings,
    ) -> (applied: bool)
        requires
            old(self).wf(),
            old(self).outputs >= 1,
            settings.wf(),
            old(innovations).wf(),
            old(self).registered_in(*old(innovations)),
        ensures
            final(self).wf(),
            final(innovations).wf(),
            final(self).inputs == old(self).inputs,
            final(self).outputs == old(self).outputs,
            final(self).nview() == old(self).nview(),
            final(self).registered_in(*final(innovations)),
            old(innovations).table().submap_of(final(innovations).table()),
            final(innovations).counter() >= old(innovations).counter(),
            forall|k: u32|
                final(innovations).table().contains_key(k) && !old(innovations).table().contains_key(
                    k,
                ) ==> #[trigger] final(innovations).table()[k] > old(innovations).counter(),
            !applied ==> final(self).cview() == old(self).cview() && *final(innovations) == *old(
                innovations,
            ),
            old(self).cview().len() <= final(self).cview().len() <= old(self).cview().len() + 1,
            forall|i: int|
                0 <= i < old(self).cview().len() ==> {
                    &&& (#[trigger] final(self).cview()[i]).0 == old(self).cview()[i].0
                    &&& final(self).cview()[i].1.0 == old(self).cview()[i].1.0
                    &&& (final(self).cview()[i].1.1 == old(self).cview()[i].1.1
                        || final(self).cview()[i].1.1 == true)
                },
            final(self).cview().len() == old(self).cview().len() + 1 ==> final(self).cview().last().1.1
                == true,
    {
        let n = self.node_count();
        let source_index = rng::below(n);
        let target_index = rng::range(self.inputs as usize, n);
        let weight = rng::spread(settings.weight);
        let applied = self.add_connection_with(
            innovations,
            settings,
            source_index,
            target_index,
            weight,
        );
        proof {
            let g = *old(self);
            let s0 = g.cview();
            let key = g.conn_endpoints(source_index as int, target_index as int);
            if !g.add_conn_rejected(*settings, source_index as int, target_index as int)
                && has_key(s0, key) {
                let i0 = key_at(s0, key);
                assert(0 <= i0 < s0.len() && s0[i0].0 == key);
                lemma_key_at(s0, i0);
            }
        }
        applied
    }

    /// The exact effect of splitting the connection at `index`: the old
    /// connection is disabled in place; `source -> new_node` (weight one)
    /// and `new_node -> target` (the old weight) are registered and
    /// inserted; the new node carries the default activation and its id is
    /// the split connection's innovation identifier.
    pub open spec fn add_node_spec(self, table: Map<u32, u16>, count: u16, index: int) -> (
        Seq<(u16, i64)>,
        Seq<((u16, u16), (i64, bool))>,
        Map<u32, u16>,
        u16,
    ) {
        let key = self.cview()[index].0;
        let w = self.cview()[index].1.0;
        let inn = table[key_of(key)];
        let c1 = self.cview().update(index, (key, (w, false)));
        let (t1, n1, _id1) = InnovationCounter::add_spec(table, count, (key.0, inn));
        let c2 = upsert(c1, (key.0, inn), (1_000_000i64, true));
        let (t2, n2, _id2) = InnovationCounter::add_spec(t1, n1, (inn, key.1));
        let c3 = upsert(c2, (inn, key.1), (w, true));
        let nv = upsert(self.nview(), inn, DEFAULT_ACTIVATION);
        (nv, c3, t2, n2)
    }

    /// Splits the connection at position `index` as `add_node_spec` says.
    pub fn add_node_at(&mut self, innovations: &mut InnovationCounter, index: usize)
        requires
            old(self).wf(),
            old(innovations).wf(),
            old(self).registered_in(*old(innovations)),
            index < old(self).cview().len(),
            old(innovations).counter() <= u16::MAX - 2,
        ensures
            final(self).wf(),
            final(innovations).wf(),
            final(self).inputs == old(self).inputs,
            final(self).outputs == old(self).outputs,
            final(self).registered_in(*final(innovations)),
            old(innovations).table().submap_of(final(innovations).table()),
            final(innovations).counter() >= old(innovations).counter(),
            forall|k: u32|
                final(innovations).table().contains_key(k) && !old(innovations).table().contains_key(
                    k,
                ) ==> #[trigger] final(innovations).table()[k] > old(innovations).counter(),
            (
                final(self).nview(),
                final(self).cview(),
                final(innovations).table(),
                final(innovations).counter(),
            ) == old(self).add_node_spec(
                old(innovations).table(),
                old(innovations).counter(),
                index as int,
            ),
            forall|k: u16| has_key(old(self).nview(), k) ==> has_key(final(self).nview(), k),
            old(self).cview().len() <= final(self).cview().len() <= old(self).cview().len() + 2,
            forall|i: int|
                0 <= i < old(self).cview().len() ==> (#[trigger] final(self).cview()[i]).0 == old(
                    self,
                ).cview()[i].0,
    {
        let entry = self.connection_at(index);
        let key = entry.0;
        let w = entry.1.0;
        let innovation = match innovations.get(key) {
            Some(id) => id,
            None => {
                proof {
                    assert(old(self).registered_in(*old(innovations)));
                    assert(old(innovations).table().contains_key(
                        key_of(old(self).cview()[index as int].0),
                    ));
                    assert(false);
                }
                0
            },
        };

        proof {
            lemma_key_at(old(self).cview(), index as int);
        }
        // disable the split connection in place
        crate::imap::conns_set_at(&mut self.connections, index, (w, false));

        let ghost c1 = self.cview();
        innovations.add((key.0, innovation));
        proof {
            lemma_upsert(c1, (key.0, innovation), (1_000_000i64, true));
        }
        self.insert_connection(key.0, innovation, 1_000_000, true);

        let ghost c2 = self.cview();
        innovations.add((innovation, key.1));
        proof {
            lemma_upsert(c2, (innovation, key.1), (w, true));
        }
        self.insert_connection(innovation, key.1, w, true);

        proof {
            lemma_upsert(old(self).nview(), innovation, DEFAULT_ACTIVATION);
        }
        self.insert_node(innovation, DEFAULT_ACTIVATION);

        proof {
            let s0 = old(self).cview();
            let nv0 = old(self).nview();
            let nv1 = self.nview();
            let s3 = self.cview();
            // keys unique along the way
            lemma_unique_update(s0, index as int, (w, false));
            // prefix of reserved nodes
            assert forall|j: int|
                0 <= j < self.inputs + self.outputs implies (#[trigger] nv1[j]).0 == j by {
                assert(nv0[j].0 == j);
                assert(nv1[j].0 == nv0[j].0) by {
                    lemma_upsert(nv0, innovation, DEFAULT_ACTIVATION);
                }
            }
            // every connection endpoint is a node
            assert forall|i: int|
                0 <= i < s3.len() implies has_key(nv1, (#[trigger] s3[i]).0.0) && has_key(
                nv1,
                s3[i].0.1,
            ) by {
                lemma_upsert(nv0, innovation, DEFAULT_ACTIVATION);
                lemma_upsert(c1, (key.0, innovation), (1_000_000i64, true));
                lemma_upsert(c2, (innovation, key.1), (w, true));
                if i < c2.len() {
                    if i < c1.len() {
                        assert(c1[i].0 == s0[i].0);
                        assert(c2[i].0 == c1[i].0);
                        assert(s3[i].0 == c2[i].0);
                        assert(has_key(nv0, s0[i].0.0) && has_key(nv0, s0[i].0.1));
                    } else {
                        assert(c2[i].0 == (key.0, innovation));
                        assert(s3[i].0 == c2[i].0);
                        assert(has_key(nv0, key.0));
                        assert(has_key(nv1, innovation));
                    }
                } else {
                    assert(s3[i].0 == (innovation, key.1));
                    assert(has_key(nv1, innovation));
                    assert(has_key(nv0, key.1));
                }
            }
            // every connection key is registered
            assert forall|i: int|
                0 <= i < s3.len() implies final(innovations).table().contains_key(
                key_of((#[trigger] s3[i]).0),
            ) by {
                lemma_upsert(c1, (key.0, innovation), (1_000_000i64, true));
                lemma_upsert(c2, (innovation, key.1), (w, true));
                if i < c2.len() {
                    if i < c1.len() {
                        assert(s3[i].0 == s0[i].0);
                        assert(old(innovations).table().contains_key(key_of(s0[i].0)));
                    } else {
                        assert(s3[i].0 == (key.0, innovation));
                    }
                } else {
                    assert(s3[i].0 == (innovation, key.1));
                }
            }
        }
    }

    /// Attempts one random node-split mutation: picks a connection
    /// uniformly at random and splits it. Does nothing when the genome has
    /// no connections or the registry cannot issue two identifiers.
    /// Whatever the random draw: existing nodes survive, existing
    /// connections keep their key and position, and at most two
    /// connections and one node are added.
    pub fn add_node(&mut self, innovations: &mut InnovationCounter)
        requires
            old(self).wf(),
            old(innovations).wf(),
            old(self).registered_in(*old(innovations)),
        ensures
            final(self).wf(),
            final(innovations).wf(),
            final(self).inputs == old(self).inputs,
            final(self).outputs == old(self).outputs,
            final(self).registered_in(*final(innovations)),
            old(innovations).table().submap_of(final(innovations).table()),
            final(innovations).counter() >= old(innovations).counter(),
            forall|k: u32|
                final(innovations).table().contains_key(k) && !old(innovations).table().contains_key(
                    k,
                ) ==> #[trigger] final(innovations).table()[k] > old(innovations).counter(),
            forall|k: u16| has_key(old(self).nview(), k) ==> has_key(final(self).nview(), k),
            final(self).nview().len() >= old(self).nview().len(),
            old(self).cview().len() <= final(self).cview().len() <= old(self).cview().len() + 2,
            forall|i: int|
                0 <= i < old(self).cview().len() ==> (#[trigger] final(self).cview()[i]).0 == old(
                    self,
                ).cview()[i].0,
            // a genome without connections, or a registry that cannot issue
            // two identifiers, is left untouched
            (old(self).cview().len() == 0 || old(innovations).counter() > u16::MAX - 2)
                ==> *final(self) == *old(self) && *final(innovations) == *old(innovations),
            // otherwise some connection is split, exactly as `add_node_spec`
            // says: there is no chance-based rejection
            (old(self).cview().len() > 0 && old(innovations).counter() <= u16::MAX - 2)
                ==> exists|i: int|
                0 <= i < old(self).cview().len() && (
                    final(self).nview(),
                    final(self).cview(),
                    final(innovations).table(),
                    final(innovations).counter(),
                ) == old(self).add_node_spec(
                    old(innovations).table(),
                    old(innovations).counter(),
                    i,
                ),
    {
        let len = self.connection_count();
        if len == 0 {
            return ;
        }
        if innovations.remaining() < 2 {
            return ;
        }
        let index = rng::below(len);
        proof {
            lemma_upsert(
                old(self).nview(),
                old(innovations).table()[key_of(old(self).cview()[index as int].0)],
                DEFAULT_ACTIVATION,
            );
        }
        self.add_node_at(innovations, index);
        proof {
            assert(0 <= (index as int) < old(self).cview().len() && (
                self.nview(),
                self.cview(),
                innovations.table(),
                innovations.counter(),
            ) == old(self).add_node_spec(
                old(innovations).table(),
                old(innovations).counter(),
                index as int,
            ));
        }
    }

    /// Perturbs each enabled connection's weight independently with
    /// probability `weight_mutate_rate`, adding a random value from
    /// `[-weight_mutate, weight_mutate)` (saturating). Disabled
    /// connections, all keys, positions and enabled flags are untouched;
    /// no cap is enforced on the result.
    pub fn mutate_connections(&mut self, settings: &NeatSettings)
        requires
            old(self).wf(),
            settings.wf(),
        ensures
            final(self).wf(),
            final(self).inputs == old(self).inputs,
            final(self).outputs == old(self).outputs,
            final(self).nview() == old(self).nview(),
            final(self).cview().len() == old(self).cview().len(),
            forall|i: int|
                0 <= i < old(self).cview().len() ==> {
                    &&& (#[trigger] final(self).cview()[i]).0 == old(self).cview()[i].0
                    &&& final(self).cview()[i].1.1 == old(self).cview()[i].1.1
                    &&& (!old(self).cview()[i].1.1 ==> final(self).cview()[i] == old(
                        self,
                    ).cview()[i])
                },
            forall|i: int|
                0 <= i < old(self).cview().len() ==> crate::num::abs_diff_spec(
                    (#[trigger] final(self).cview()[i]).1.0 as int,
                    old(self).cview()[i].1.0 as int,
                ) <= settings.weight_mutate,
    {
        let len = self.connection_count();
        let mut i: usize = 0;
        while i < len
            invariant
                i <= len,
                settings.wf(),
                old(self).wf(),
                len == old(self).cview().len(),
                self.inputs == old(self).inputs,
                self.outputs == old(self).outputs,
                self.nview() == old(self).nview(),
                self.nodes == old(self).nodes,
                self.cview().len() == old(self).cview().len(),
                forall|j: int| i <= j < len ==> #[trigger] self.cview()[j] == old(self).cview()[j],
                forall|j: int|
                    0 <= j < len ==> {
                        &&& (#[trigger] self.cview()[j]).0 == old(self).cview()[j].0
                        &&& self.cview()[j].1.1 == old(self).cview()[j].1.1
                        &&& (!old(self).cview()[j].1.1 ==> self.cview()[j] == old(self).cview()[j])
                    },
                forall|j: int|
                    0 <= j < len ==> crate::num::abs_diff_spec(
                        (#[trigger] self.cview()[j]).1.0 as int,
                        old(self).cview()[j].1.0 as int,
                    ) <= settings.weight_mutate,
            decreases len - i,
        {
            let ghost top = self.cview();
            let entry = self.connection_at(i);
            if entry.1.1 {
                if rng::micro() < settings.weight_mutate_rate {
                    let delta = rng::spread(settings.weight_mutate);
                    let perturbed = crate::num::sat_add(entry.1.0, delta);
                    crate::imap::conns_set_at(&mut self.connections, i, (perturbed, true));
                    proof {
                        assert(top[i as int] == old(self).cview()[i as int]);
                        assert(crate::num::abs_diff_spec(
                            self.cview()[i as int].1.0 as int,
                            old(self).cview()[i as int].1.0 as int,
                        ) <= settings.weight_mutate);
                    }
                }
            }
            i = i + 1;
        }
        proof {
            assert(keys_unique(self.cview())) by {
                assert forall|p: int, q: int|
                    0 <= p < q < self.cview().len() implies (#[trigger] self.cview()[p]).0 != (
                    #[trigger] self.cview()[q]).0 by {
                    assert(self.cview()[p].0 == old(self).cview()[p].0);
                    assert(self.cview()[q].0 == old(self).cview()[q].0);
                }
            }
            assert forall|j: int|
                0 <= j < self.cview().len() implies has_key(
                self.nview(),
                (#[trigger] self.cview()[j]).0.0,
            ) && has_key(self.nview(), self.cview()[j].0.1) by {
                assert(self.cview()[j].0 == old(self).cview()[j].0);
            }
        }
    }

    /// Perturbs each node's activation coefficient independently with
    /// probability `activation_mutate_rate`, adding a random value from
    /// `[-activation_mutate, activation_mutate)` (saturating). Node ids
    /// and positions are untouched.
    pub fn mutate_nodes(&mut self, settings: &NeatSettings)
        requires
            old(self).wf(),
            settings.wf(),
        ensures
            final(self).wf(),
            final(self).inputs == old(self).inputs,
            final(self).outputs == old(self).outputs,
            final(self).cview() == old(self).cview(),
            final(self).nview().len() == old(self).nview().len(),
            forall|i: int|
                0 <= i < old(self).nview().len() ==> (#[trigger] final(self).nview()[i]).0 == old(
                    self,
                ).nview()[i].0,
            forall|i: int|
                0 <= i < old(self).nview().len() ==> crate::num::abs_diff_spec(
                    (#[trigger] final(self).nview()[i]).1 as int,
                    old(self).nview()[i].1 as int,
                ) <= settings.activation_mutate,
    {
        let len = self.node_count();
        let mut i: usize = 0;
        while i < len
            invariant
                i <= len,
                settings.wf(),
                old(self).wf(),
                len == old(self).nview().len(),
                self.inputs == old(self).inputs,
                self.outputs == old(self).outputs,
                self.cview() == old(self).cview(),
                self.connections == old(self).connections,
                self.nview().len() == old(self).nview().len(),
                forall|j: int|
                    0 <= j < len ==> (#[trigger] self.nview()[j]).0 == old(self).nview()[j].0,
                forall|j: int| i <= j < len ==> #[trigger] self.nview()[j] == old(self).nview()[j],
                forall|j: int|
                    0 <= j < len ==> crate::num::abs_diff_spec(
                        (#[trigger] self.nview()[j]).1 as int,
                        old(self).nview()[j].1 as int,
                    ) <= settings.activation_mutate,
            decreases len - i,
        {
            let ghost top = self.nview();
            let entry = self.node_at(i);
            if rng::micro() <= settings.activation_mutate_rate {
                let delta = rng::spread(settings.activation_mutate);
                let perturbed = crate::num::sat_add(entry.1, delta);
                crate::imap::nodes_set_at(&mut self.nodes, i, perturbed);
                proof {
                    assert(top[i as int] == old(self).nview()[i as int]);
                    assert(crate::num::abs_diff_spec(
                        self.nview()[i as int].1 as int,
                        old(self).nview()[i as int].1 as int,
                    ) <= settings.activation_mutate);
                }
            }
            i = i + 1;
        }
        proof {
            assert(keys_unique(self.nview())) by {
                assert forall|p: int, q: int|
                    0 <= p < q < self.nview().len() implies (#[trigger] self.nview()[p]).0 != (
                    #[trigger] self.nview()[q]).0 by {
                    assert(self.nview()[p].0 == old(self).nview()[p].0);
                    assert(self.nview()[q].0 == old(self).nview()[q].0);
                }
            }
            assert forall|j: int|
                0 <= j < self.inputs + self.outputs implies (#[trigger] self.nview()[j]).0
                == j by {
                assert(self.nview()[j].0 == old(self).nview()[j].0);
            }
            assert forall|j: int|
                0 <= j < self.cview().len() implies has_key(
                self.nview(),
                (#[trigger] self.cview()[j]).0.0,
            ) && has_key(self.nview(), self.cview()[j].0.1) by {
                let a = self.cview()[j].0.0;
                let b = self.cview()[j].0.1;
                assert(has_key(old(self).nview(), a));
                assert(has_key(old(self).nview(), b));
                let p = key_at(old(self).nview(), a);
                assert(self.nview()[p].0 == a);
                let q = key_at(old(self).nview(), b);
                assert(self.nview()[q].0 == b);
            }
        }
    }

    /// Applies one round of random mutation: with probability
    /// `add_connection_rate` a connection attempt, with probability
    /// `add_node_rate` a node split, then unconditional weight and
    /// activation perturbation. Whatever the draws: the reserved nodes and
    /// every existing node survive, the genome stays well-formed, and
    /// every connection key stays registered in a registry that only grew.
    pub fn mutate(&mut self, innovations: &mut InnovationCounter, settings: &NeatSettings)
        requires
            old(self).wf(),
            old(self).outputs >= 1,
            settings.wf(),
            old(innovations).wf(),
            old(self).registered_in(*old(innovations)),
        ensures
            final(self).wf(),
            final(innovations).wf(),
            final(self).inputs == old(self).inputs,
            final(self).outputs == old(self).outputs,
            final(self).registered_in(*final(innovations)),
            old(innovations).table().submap_of(final(innovations).table()),
            final(innovations).counter() >= old(innovations).counter(),
            forall|k: u32|
                final(innovations).table().contains_key(k) && !old(innovations).table().contains_key(
                    k,
                ) ==> #[trigger] final(innovations).table()[k] > old(innovations).counter(),
            forall|k: u16| has_key(old(self).nview(), k) ==> has_key(final(self).nview(), k),
            final(self).nview().len() >= old(self).nview().len(),
            final(self).cview().len() >= old(self).cview().len(),
            forall|i: int|
                0 <= i < old(self).cview().len() ==> (#[trigger] final(self).cview()[i]).0 == old(
                    self,
                ).cview()[i].0,
    {
        let ghost mid0 = *self;
        if rng::micro() <= settings.add_connection_rate {
            self.add_connection(innovations, settings);
        }
        let ghost mid1 = *self;
        let ghost reg1 = *innovations;
        if rng::micro() <= settings.add_node_rate {
            self.add_node(innovations);
        }
        let ghost mid2 = *self;
        let ghost reg2 = *innovations;
        self.mutate_connections(settings);
        proof {
            assert forall|i: int|
                0 <= i < self.cview().len() implies reg2.table().contains_key(
                key_of((#[trigger] self.cview()[i]).0),
            ) by {
                assert(self.cview()[i].0 == mid2.cview()[i].0);
            }
        }
        let ghost mid3 = *self;
        self.mutate_nodes(settings);
        proof {
            assert(self.cview() == mid3.cview());
            assert forall|k: u16| has_key(old(self).nview(), k) implies has_key(
                self.nview(),
                k,
            ) by {
                assert(has_key(mid2.nview(), k));
                assert(has_key(mid3.nview(), k)) by {
                    assert(mid3.nview() == mid2.nview());
                }
                let p = key_at(mid3.nview(), k);
                assert(self.nview()[p].0 == k);
            }
            vstd::map_lib::lemma_submap_of_trans(
                old(innovations).table(),
                reg1.table(),
                reg2.table(),
            );
            // connection keys survive in place through all four operators
            assert forall|i: int|
                0 <= i < old(self).cview().len() implies (#[trigger] self.cview()[i]).0 == old(
                self,
            ).cview()[i].0 by {
                assert(mid1.cview()[i].0 == mid0.cview()[i].0);
                assert(mid2.cview()[i].0 == mid1.cview()[i].0);
                assert(mid3.cview()[i].0 == mid2.cview()[i].0);
            }
            assert(self.nview().len() >= old(self).nview().len()) by {
                assert(mid1.nview() == mid0.nview());
                assert(mid2.nview().len() >= mid1.nview().len());
                assert(mid3.nview() == mid2.nview());
            }
            // identifiers issued during this mutation exceed the old counter
            assert forall|k: u32|
                innovations.table().contains_key(k) && !old(innovations).table().contains_key(
                    k,
                ) implies #[trigger] innovations.table()[k] > old(innovations).counter() by {
                if reg1.table().contains_key(k) {
                    assert(reg1.table()[k] > old(innovations).counter());
                    assert(reg2.table().contains_key(k));
                    assert(reg2.table()[k] == reg1.table()[k]);
                    assert(innovations.table()[k] == reg2.table()[k]);
                } else {
                    assert(innovations.table() == reg2.table());
                    assert(reg2.table()[k] > reg1.counter());
                    assert(reg1.counter() >= old(innovations).counter());
                }
            }
        }
    }

    /// Produces a child genome from two parents. Only the `better`
    /// parent's connections are iterated, so the child's connection keys
    /// are exactly `better`'s, in order: no gene found only in `worse` is
    /// ever inherited. A gene present in both parents is copied from
    /// `worse` with probability one half (together with its endpoint
    /// nodes' activations, first write wins), otherwise from `better`.
    pub fn cross(better: &Genome, worse: &Genome) -> (child: Genome)
        requires
            better.wf(),
            worse.wf(),
            better.inputs == worse.inputs,
            better.outputs == worse.outputs,
        ensures
            child.wf(),
            child.inputs == better.inputs,
            child.outputs == better.outputs,
            child.cview().len() == better.cview().len(),
            forall|i: int|
                0 <= i < better.cview().len() ==> (#[trigger] child.cview()[i]).0
                    == better.cview()[i].0,
            forall|i: int|
                0 <= i < better.cview().len() ==> ((#[trigger] child.cview()[i]).1
                    == better.cview()[i].1 || (has_key(worse.cview(), better.cview()[i].0)
                    && child.cview()[i].1 == val_of(worse.cview(), better.cview()[i].0))),
            // the reserved nodes keep the default activation (they exist
            // before any gene is copied, and the first write wins)
            child.nview().len() >= better.inputs + better.outputs,
            forall|j: int|
                0 <= j < better.inputs + better.outputs ==> #[trigger] child.nview()[j] == (
                    j as u16,
                    DEFAULT_ACTIVATION,
                ),
            // every other node is an endpoint of one of better's genes and
            // carries that node's activation from one of the two parents
            forall|j: int|
                better.inputs + better.outputs <= j < child.nview().len() ==> endpoint_of(
                    better.cview(),
                    (#[trigger] child.nview()[j]).0,
                    better.cview().len() as int,
                ),
            forall|j: int|
                better.inputs + better.outputs <= j < child.nview().len() ==> ({
                    let k = (#[trigger] child.nview()[j]).0;
                    let a = child.nview()[j].1;
                    ||| (has_key(better.nview(), k) && a == val_of(better.nview(), k))
                    ||| (has_key(worse.nview(), k) && a == val_of(worse.nview(), k))
                }),
    {
        let mut child = Genome::new(better.inputs, better.outputs);
        let len = better.connection_count();
        let mut i: usize = 0;
        while i < len
            invariant
                better.wf(),
                worse.wf(),
                i <= len,
                len == better.cview().len(),
                child.wf(),
                child.inputs == better.inputs,
                child.outputs == better.outputs,
                child.cview().len() == i,
                forall|j: int|
                    0 <= j < i ==> (#[trigger] child.cview()[j]).0 == better.cview()[j].0,
                forall|j: int|
                    0 <= j < i ==> ((#[trigger] child.cview()[j]).1 == better.cview()[j].1 || (
                    has_key(worse.cview(), better.cview()[j].0) && child.cview()[j].1 == val_of(
                        worse.cview(),
                        better.cview()[j].0,
                    ))),
                child.nview().len() >= better.inputs + better.outputs,
                forall|j: int|
                    0 <= j < better.inputs + better.outputs ==> #[trigger] child.nview()[j] == (
                        j as u16,
                        DEFAULT_ACTIVATION,
                    ),
                forall|j: int|
                    better.inputs + better.outputs <= j < child.nview().len() ==> endpoint_of(
                        better.cview(),
                        (#[trigger] child.nview()[j]).0,
                        i as int,
                    ),
                forall|j: int|
                    better.inputs + better.outputs <= j < child.nview().len() ==> ({
                        let k = (#[trigger] child.nview()[j]).0;
                        let a = child.nview()[j].1;
                        ||| (has_key(better.nview(), k) && a == val_of(better.nview(), k))
                        ||| (has_key(worse.nview(), k) && a == val_of(worse.nview(), k))
                    }),
            decreases len - i,
        {
            let entry = better.connection_at(i);
            let key = entry.0;
            let worse_gene = conns_get(&worse.connections, key);
            let from_worse = match worse_gene {
                Some(_) => rng::micro() < 500_000,
                None => false,
            };

            proof {
                // the key is new to the child: the child holds exactly the
                // first i keys of `better`, all different from key i
                assert(!has_key(child.cview(), key)) by {
                    assert forall|j: int|
                        0 <= j < child.cview().len() implies (#[trigger] child.cview()[j]).0
                        != key by {
                        assert(child.cview()[j].0 == better.cview()[j].0);
                        assert(better.cview()[j].0 != better.cview()[i as int].0);
                    }
                }
                if worse_gene is Some {
                    assert(has_key(worse.cview(), key));
                    let p = key_at(worse.cview(), key);
                    assert(worse.cview()[p].0 == key);
                }
            }

            let gene: (i64, bool) = if from_worse {
                match worse_gene {
                    Some(v) => v,
                    None => {
                        proof {
                            assert(false);
                        }
                        (0, false)
                    },
                }
            } else {
                entry.1
            };

            // bring the endpoint nodes over from the gene's parent, first
            // write wins
            let parent: &Genome = if from_worse {
                worse
            } else {
                better
            };
            proof {
                if from_worse {
                    let p = key_at(worse.cview(), key);
                    assert(has_key(worse.nview(), key.0) && has_key(worse.nview(), key.1));
                } else {
                    assert(better.cview()[i as int].0 == key);
                    assert(has_key(better.nview(), key.0) && has_key(better.nview(), key.1));
                }
            }
            if !child.has_node(key.0) {
                let act = match parent.node_value(key.0) {
                    Some(a) => a,
                    None => {
                        proof {
                            assert(false);
                        }
                        0
                    },
                };
                proof {
                    let w = key_at(parent.nview(), key.0);
                    assert(0 <= w < parent.nview().len() && parent.nview()[w].0 == key.0);
                    assert(act == val_of(parent.nview(), key.0));
                }
                let ghost nodes_before = child.nview();
                child.insert_node(key.0, act);
                proof {
                    assert(child.nview() == nodes_before.push((key.0, act)));
                    assert forall|j: int|
                        better.inputs + better.outputs <= j < child.nview().len() implies
                        endpoint_of(better.cview(), (#[trigger] child.nview()[j]).0, i as int + 1)
                        && ({
                        let k = child.nview()[j].0;
                        let a = child.nview()[j].1;
                        ||| (has_key(better.nview(), k) && a == val_of(better.nview(), k))
                        ||| (has_key(worse.nview(), k) && a == val_of(worse.nview(), k))
                    }) by {
                        if j < nodes_before.len() {
                            assert(child.nview()[j] == nodes_before[j]);
                            assert(endpoint_of(better.cview(), nodes_before[j].0, i as int));
                        } else {
                            assert(child.nview()[j] == (key.0, act));
                            assert(better.cview()[i as int].0.0 == key.0);
                        }
                    }
                }
            }
            if !child.has_node(key.1) {
                let act = match parent.node_value(key.1) {
                    Some(a) => a,
                    None => {
                        proof {
                            assert(false);
                        }
                        0
                    },
                };
                proof {
                    let w = key_at(parent.nview(), key.1);
                    assert(0 <= w < parent.nview().len() && parent.nview()[w].0 == key.1);
                    assert(act == val_of(parent.nview(), key.1));
                }
                let ghost nodes_before = child.nview();
                child.insert_node(key.1, act);
                proof {
                    assert(child.nview() == nodes_before.push((key.1, act)));
                    assert forall|j: int|
                        better.inputs + better.outputs <= j < child.nview().len() implies
                        endpoint_of(better.cview(), (#[trigger] child.nview()[j]).0, i as int + 1)
                        && ({
                        let k = child.nview()[j].0;
                        let a = child.nview()[j].1;
                        ||| (has_key(better.nview(), k) && a == val_of(better.nview(), k))
                        ||| (has_key(worse.nview(), k) && a == val_of(worse.nview(), k))
                    }) by {
                        if j < nodes_before.len() {
                            assert(child.nview()[j] == nodes_before[j]);
                            if better.inputs + better.outputs <= j {
                                assert(endpoint_of(
                                    better.cview(),
                                    nodes_before[j].0,
                                    i as int + 1,
                                ) || endpoint_of(better.cview(), nodes_before[j].0, i as int));
                            }
                        } else {
                            assert(child.nview()[j] == (key.1, act));
                            assert(better.cview()[i as int].0.1 == key.1);
                        }
                    }
                }
            }
            proof {
                assert(has_key(child.nview(), key.0));
                assert(has_key(child.nview(), key.1));
            }
            let ghost before = child;
            child.insert_connection(key.0, key.1, gene.0, gene.1);
            proof {
                assert(child.cview() == before.cview().push((key, gene)));
                assert forall|j: int|
                    0 <= j < child.cview().len() implies has_key(
                    child.nview(),
                    (#[trigger] child.cview()[j]).0.0,
                ) && has_key(child.nview(), child.cview()[j].0.1) by {
                    if j < before.cview().len() {
                        assert(child.cview()[j] == before.cview()[j]);
                    } else {
                        assert(child.cview()[j].0 == key);
                    }
                }
                if worse_gene is Some && from_worse {
                    let p = key_at(worse.cview(), key);
                    assert(worse.cview()[p].0 == key);
                }
            }
            i = i + 1;
        }
        child
    }

    /// Decides whether two genomes belong to the same species: their
    /// distance is below `species_threshold`.
    pub fn same_species(first: &Genome, second: &Genome, settings: &NeatSettings) -> (r: bool)
        ensures
            r == same_species_spec(*first, *second, *settings),
    {
        let a_len = first.connection_count();
        let b_len = second.connection_count();

        // one pass over `first`: weight differences on shared keys, a
        // disjoint count for keys missing from `second`
        let mut c_first: usize = 0;
        let mut w_diff: i64 = 0;
        let mut i: usize = 0;
        while i < a_len
            invariant
                i <= a_len,
                a_len == first.cview().len(),
                c_first <= i,
                (c_first as int, w_diff as int) == species_accum(
                    first.cview(),
                    second.cview(),
                    i as int,
                ),
            decreases a_len - i,
        {
            let entry = first.connection_at(i);
            match conns_get(&second.connections, entry.0) {
                Some(v) => {
                    proof {
                        let p = key_at(second.cview(), entry.0);
                        assert(second.cview()[p].0 == entry.0);
                    }
                    w_diff = crate::num::sat_add(w_diff, crate::num::abs_diff(entry.1.0, v.0));
                },
                None => {
                    c_first = c_first + 1;
                },
            }
            i = i + 1;
        }

        // one pass over `second`: count keys missing from `first`
        let mut c_second: usize = 0;
        let mut j: usize = 0;
        while j < b_len
            invariant
                j <= b_len,
                b_len == second.cview().len(),
                c_second <= j,
                c_second as int == missing_count(second.cview(), first.cview(), j as int),
            decreases b_len - j,
        {
            let entry = second.connection_at(j);
            if !conns_contains(&first.connections, entry.0) {
                c_second = c_second + 1;
            }
            j = j + 1;
        }

        let size: usize = if a_len >= b_len {
            a_len
        } else {
            b_len
        };
        let conn_term: i64 = if size == 0 {
            0
        } else {
            let total: u128 = c_first as u128 + c_second as u128;
            let cd = settings.connections_diff;
            let cd_mag: u128 = if cd < 0 {
                (-(cd as i128)) as u128
            } else {
                cd as u128
            };
            proof {
                assert(total * cd_mag <= 0x1_FFFF_FFFF_FFFF_FFFEu128 * 0x8000_0000_0000_0000u128)
                    by (nonlinear_arith)
                    requires
                        total <= 0x1_FFFF_FFFF_FFFF_FFFEu128,
                        cd_mag <= 0x8000_0000_0000_0000u128,
                ;
                assert(0x1_FFFF_FFFF_FFFF_FFFEu128 * 0x8000_0000_0000_0000u128
                    <= 0xFFFF_FFFF_FFFF_FFFF_FFFF_FFFF_FFFF_FFFFu128) by (nonlinear_arith);
                vstd::arithmetic::div_mod::lemma_div_is_ordered(
                    0,
                    (total * cd_mag) as int,
                    size as int,
                );
            }
            let q: u128 = (total * cd_mag) / (size as u128);
            if cd >= 0 {
                if q > i64::MAX as u128 {
                    i64::MAX
                } else {
                    q as i64
                }
            } else {
                if q > i64::MAX as u128 + 1 {
                    i64::MIN
                } else {
                    (-(q as i128)) as i64
                }
            }
        };
        let w_term = crate::num::fx_mul(w_diff, settings.weight_diff);
        let dist = crate::num::sat_add(conn_term, w_term);
        dist < settings.species_threshold
    }

    /// The position of the node with this id in insertion order.
    pub fn node_index_of(&self, id: u16) -> (r: usize)
        requires
            keys_unique(self.nview()),
            has_key(self.nview(), id),
        ensures
            r == key_at(self.nview(), id),
            r < self.nview().len(),
            self.nview()[r as int].0 == id,
    {
        let len = self.node_count();
        let mut i: usize = 0;
        while i < len
            invariant
                i <= len,
                len == self.nview().len(),
                keys_unique(self.nview()),
                has_key(self.nview(), id),
                forall|j: int| 0 <= j < i ==> (#[trigger] self.nview()[j]).0 != id,
            decreases len - i,
        {
            let entry = self.node_at(i);
            if entry.0 == id {
                proof {
                    lemma_key_at(self.nview(), i as int);
                }
                return i;
            }
            i = i + 1;
        }
        proof {
            let w = key_at(self.nview(), id);
            assert(0 <= w < self.nview().len() && self.nview()[w].0 == id);
            assert(false);
        }
        0
    }

    /// Whether a node with this id exists.
    pub fn has_node(&self, id: u16) -> (r: bool)
        ensures
            r == has_key(self.nview(), id),
    {
        nodes_contains(&self.nodes, id)
    }

    /// The activation coefficient of the node with this id, if it exists.
    pub fn node_value(&self, id: u16) -> (r: Option<i64>)
        ensures
            r is Some <==> has_key(self.nview(), id),
            forall|i: int|
                0 <= i < self.nview().len() && (#[trigger] self.nview()[i]).0 == id ==> r == Some(
                    self.nview()[i].1,
                ),
    {
        nodes_get(&self.nodes, id)
    }

    /// Number of nodes.
    pub fn node_count(&self) -> (n: usize)
        ensures
            n == self.nview().len(),
    {
        nodes_len(&self.nodes)
    }

    /// Number of connections, enabled or not.
    pub fn connection_count(&self) -> (n: usize)
        ensures
            n == self.cview().len(),
    {
        conns_len(&self.connections)
    }

    /// The node entry at a position in insertion order.
    pub fn node_at(&self, i: usize) -> (r: (u16, i64))
        requires
            i < self.nview().len(),
        ensures
            r == self.nview()[i as int],
    {
        nodes_at(&self.nodes, i)
    }

    /// The connection entry at a position in insertion order.
    pub fn connection_at(&self, i: usize) -> (r: ((u16, u16), (i64, bool)))
        requires
            i < self.cview().len(),
        ensures
            r == self.cview()[i as int],
    {
        conns_at(&self.connections, i)
    }
}

/// Comparing a table with itself accumulates no disjoint count and no
/// weight difference.
proof fn lemma_accum_self(a: Seq<((u16, u16), (i64, bool))>, n: int)
    requires
        keys_unique(a),
        0 <= n <= a.len(),
    ensures
        species_accum(a, a, n) == (0int, 0int),
    decreases n,
{
    if n > 0 {
        lemma_accum_self(a, n - 1);
        assert(a[n - 1].0 == a[n - 1].0);
        assert(has_key(a, a[n - 1].0));
        lemma_key_at(a, n - 1);
        assert(val_of(a, a[n - 1].0) == a[n - 1].1);
        assert(crate::num::abs_diff_spec(a[n - 1].1.0 as int, a[n - 1].1.0 as int) == 0);
        assert(crate::num::sat_add_spec(0, 0) == 0);
    }
}

/// No key of a table is missing from the table itself.
proof fn lemma_missing_self(a: Seq<((u16, u16), (i64, bool))>, n: int)
    requires
        0 <= n <= a.len(),
    ensures
        missing_count(a, a, n) == 0,
    decreases n,
{
    if n > 0 {
        lemma_missing_self(a, n - 1);
        assert(has_key(a, a[n - 1].0));
    }
}

/// A genome is always the same species as itself when the threshold is
/// positive: the self-distance is zero.
pub proof fn lemma_same_species_reflexive(g: Genome, settings: NeatSettings)
    requires
        keys_unique(g.cview()),
        settings.species_threshold > 0,
    ensures
        same_species_spec(g, g, settings),
{
    let a = g.cview();
    lemma_accum_self(a, a.len() as int);
    lemma_missing_self(a, a.len() as int);
    let size = a.len() as int;
    assert(scaled_count_term(0, settings.connections_diff as int, size) == 0) by {
        if size != 0 {
            let cd = settings.connections_diff as int;
            if cd >= 0 {
                assert(0 * cd == 0) by (nonlinear_arith);
                assert(0int / size == 0) by (nonlinear_arith)
                    requires
                        size > 0,
                ;
            } else {
                assert(0 * -cd == 0) by (nonlinear_arith);
                assert(0int / size == 0) by (nonlinear_arith)
                    requires
                        size > 0,
                ;
            }
        }
    }
    assert(crate::num::fx_mul_spec(0, settings.weight_diff as int) == 0) by {
        let wd = settings.weight_diff as int;
        assert(crate::num::fx_abs(0) == 0);
        assert(0 * crate::num::fx_abs(wd) == 0) by (nonlinear_arith);
        assert(0int / 1_000_000int == 0) by (nonlinear_arith);
    }
    assert(species_distance(a, a, settings) == 0);
}

impl Clone for Genome {
    /// The copy carries the same tables in the same order.
    fn clone(&self) -> (r: Genome)
        ensures
            r.inputs == self.inputs,
            r.outputs == self.outputs,
            r.nview() == self.nview(),
            r.cview() == self.cview(),
    {
        Genome {
            inputs: self.inputs,
            outputs: self.outputs,
            nodes: nodes_clone(&self.nodes),
            connections: conns_clone(&self.connections),
        }
    }
}

} // verus!
