//! The compiled phenotype: an index-addressed node arena built from one
//! genome's enabled connections, evaluated by memoized traversal.
//!
//! Evaluation policy: a node is marked solved before its value is
//! computed, so each node is computed at most once per propagation and the
//! traversal terminates on every topology (this is proved); on a cyclic
//! topology a back edge reads the source's currently stored value instead
//! of recursing. Evaluation has no hidden state beyond the per-node
//! values, which `reset` clears, so propagation is a pure function of the
//! network structure, the stored values and the inputs.

use vstd::prelude::*;

use crate::genome::Genome;
use crate::genome::key_at;
use crate::num::FX_ONE;
use crate::num::fx_mul;
use crate::num::fx_mul_spec;
use crate::num::sat_add;
use crate::num::sat_add_spec;
use crate::num::sigmoid;
use crate::num::sigmoid_spec;
use crate::rng;

verus! {

/// Task that a `Network` can be driven by and a population trained on.
/// Implementors supply the three operations and nothing else couples the
/// evolutionary core to task logic.
pub trait Task: Sized {
    /// Creates an instance; the seed makes task-internal randomness
    /// reproducible per evaluation.
    fn new(seed: u64) -> Self;

    /// Consumes the network's current outputs and returns the next inputs
    /// to feed it; the lengths must match the network's output and input
    /// counts.
    fn step(&mut self, inputs: Vec<i64>) -> Vec<i64>;

    /// `None` while the episode is ongoing, the final fitness once it
    /// ends.
    fn score(&self) -> Option<i64>;
}

/// An incoming edge of a runtime node: the arena index of its source and
/// the connection weight.
#[derive(Clone, Copy)]
pub struct Edge {
    /// Arena index of the source node.
    pub src: usize,
    /// Fixed-point connection weight.
    pub weight: i64,
}

/// Neural network compiled from a genome. Node `i` of the arena is the
/// `i`-th node of the genome in insertion order: positions `0..inputs`
/// are the input nodes, `inputs..inputs + outputs` the output nodes.
pub struct Network {
    /// Activation coefficient per node.
    pub acts: Vec<i64>,
    /// Incoming edges per node.
    pub preds: Vec<Vec<Edge>>,
    /// Current value per node.
    pub values: Vec<i64>,
    /// Number of input nodes.
    pub inputs: u16,
    /// Number of output nodes.
    pub outputs: u16,
}

/// Every edge points at a node of the arena.
pub open spec fn edges_ok(preds: Seq<Vec<Edge>>) -> bool {
    forall|i: int, j: int|
        0 <= i < preds.len() && 0 <= j < preds[i]@.len() ==> (#[trigger] preds[i]@[j]).src
            < preds.len()
}

/// How many nodes are still unsolved.
pub open spec fn count_false(s: Seq<bool>) -> nat
    decreases s.len(),
{
    if s.len() == 0 {
        0
    } else {
        count_false(s.drop_last()) + if s.last() {
            0nat
        } else {
            1nat
        }
    }
}

/// All values zero.
pub open spec fn zeroed(n: nat) -> Seq<i64> {
    Seq::new(n, |i: int| 0i64)
}

/// The node values after the inputs are assigned positionally.
pub open spec fn set_inputs_spec(vals: Seq<i64>, ins: Seq<i64>) -> Seq<i64> {
    Seq::new(vals.len(), |i: int| if i < ins.len() {
        ins[i]
    } else {
        vals[i]
    })
}

/// The solved marks before evaluation: exactly the first `k` nodes.
pub open spec fn init_solved(n: nat, k: int) -> Seq<bool> {
    Seq::new(n, |i: int| i < k)
}

/// Evaluates one node: the saturating weighted sum of its incoming edges
/// followed by the sigmoid. `fuel` only bounds the recursion depth: any
/// fuel at least the number of unsolved nodes gives the same result.
pub open spec fn eval_node_spec(
    acts: Seq<i64>,
    preds: Seq<Vec<Edge>>,
    vals: Seq<i64>,
    solved: Seq<bool>,
    target: int,
    fuel: nat,
) -> (i64, Seq<i64>, Seq<bool>)
    decreases fuel, 1int, 0int,
{
    let (acc, vals2, solved2) = eval_edges_spec(
        acts,
        preds,
        vals,
        solved,
        preds[target]@,
        0,
        0,
        fuel,
    );
    ((sigmoid_spec(acc, acts[target] as int)) as i64, vals2, solved2)
}

/// Processes the edges of one node from position `j` on, accumulating the
/// saturating weighted sum in `acc`. A solved source contributes its
/// stored value; an unsolved source is marked solved, evaluated
/// recursively, written back, and contributes the fresh value.
pub open spec fn eval_edges_spec(
    acts: Seq<i64>,
    preds: Seq<Vec<Edge>>,
    vals: Seq<i64>,
    solved: Seq<bool>,
    edges: Seq<Edge>,
    j: int,
    acc: int,
    fuel: nat,
) -> (int, Seq<i64>, Seq<bool>)
    decreases fuel, 0int, edges.len() - j,
{
    if j < 0 || j >= edges.len() {
        (acc, vals, solved)
    } else {
        let e = edges[j];
        if solved[e.src as int] {
            eval_edges_spec(
                acts,
                preds,
                vals,
                solved,
                edges,
                j + 1,
                sat_add_spec(acc, fx_mul_spec(vals[e.src as int] as int, e.weight as int)),
                fuel,
            )
        } else if fuel == 0 {
            (acc, vals, solved)
        } else {
            let solved1 = solved.update(e.src as int, true);
            let (v, vals2, solved2) = eval_node_spec(
                acts,
                preds,
                vals,
                solved1,
                e.src as int,
                (fuel - 1) as nat,
            );
            let vals3 = vals2.update(e.src as int, v);
            eval_edges_spec(
                acts,
                preds,
                vals3,
                solved2,
                edges,
                j + 1,
                sat_add_spec(acc, fx_mul_spec(v as int, e.weight as int)),
                fuel,
            )
        }
    }
}

/// The values and marks after the first `k` output nodes are evaluated in
/// order.
pub open spec fn prop_outputs_spec(
    acts: Seq<i64>,
    preds: Seq<Vec<Edge>>,
    inputs: int,
    vals: Seq<i64>,
    solved: Seq<bool>,
    k: int,
) -> (Seq<i64>, Seq<bool>)
    decreases k,
{
    if k <= 0 {
        (vals, solved)
    } else {
        let (v1, s1) = prop_outputs_spec(acts, preds, inputs, vals, solved, k - 1);
        let o = inputs + k - 1;
        let (v, v2, s2) = eval_node_spec(acts, preds, v1, s1, o, count_false(s1));
        (v2.update(o, v), s2)
    }
}

/// The node values after one whole propagation: inputs assigned, the
/// input nodes pre-marked solved, then each output node evaluated.
pub open spec fn prop_spec(
    acts: Seq<i64>,
    preds: Seq<Vec<Edge>>,
    inputs: int,
    outputs: int,
    vals: Seq<i64>,
    ins: Seq<i64>,
) -> Seq<i64> {
    let v0 = set_inputs_spec(vals, ins);
    let s0 = init_solved(vals.len(), inputs);
    prop_outputs_spec(acts, preds, inputs, v0, s0, outputs).0
}

/// The incoming-edge tables as plain sequences.
pub open spec fn preds_view(preds: Seq<Vec<Edge>>) -> Seq<Seq<Edge>> {
    Seq::new(preds.len(), |i: int| preds[i]@)
}

/// The incoming-edge tables after compiling the first `c` connections of
/// a genome: every enabled connection appends one edge to its target's
/// table, sources and targets resolved to node positions.
pub open spec fn compiled_preds(g: Genome, c: int) -> Seq<Seq<Edge>>
    decreases c,
{
    if c <= 0 {
        Seq::new(g.nview().len(), |i: int| Seq::<Edge>::empty())
    } else {
        let p = compiled_preds(g, c - 1);
        let entry = g.cview()[c - 1];
        if entry.1.1 {
            let s = key_at(g.nview(), entry.0.0);
            let t = key_at(g.nview(), entry.0.1);
            p.update(t, p[t].push(Edge { src: s as usize, weight: entry.1.0 }))
        } else {
            p
        }
    }
}

/// What `Network::new` builds from a genome: fresh zero values, the
/// genome's activations in insertion order, and exactly the compiled
/// edge tables.
pub open spec fn compiled_from(net: Network, g: Genome) -> bool {
    &&& net.wf()
    &&& net.inputs == g.inputs
    &&& net.outputs == g.outputs
    &&& net.values@.len() == g.nview().len()
    &&& net.values@ == zeroed(g.nview().len())
    &&& net.acts@.len() == g.nview().len()
    &&& (forall|i: int| 0 <= i < g.nview().len() ==> net.acts@[i] == (#[trigger] g.nview()[i]).1)
    &&& preds_view(net.preds@) == compiled_preds(g, g.cview().len() as int)
}

/// Compilation reads a genome only through its views, so two genomes with
/// the same tables compile identically.
pub proof fn lemma_compiled_preds_congruent(g1: Genome, g2: Genome, c: int)
    requires
        g1.nview() == g2.nview(),
        g1.cview() == g2.cview(),
    ensures
        compiled_preds(g1, c) == compiled_preds(g2, c),
    decreases c,
{
    if c > 0 {
        lemma_compiled_preds_congruent(g1, g2, c - 1);
    }
}

/// A network compiled from one genome is compiled from any genome with
/// the same tables and counts.
pub proof fn lemma_compiled_from_congruent(net: Network, g1: Genome, g2: Genome)
    requires
        compiled_from(net, g1),
        g1.nview() == g2.nview(),
        g1.cview() == g2.cview(),
        g1.inputs == g2.inputs,
        g1.outputs == g2.outputs,
    ensures
        compiled_from(net, g2),
{
    lemma_compiled_preds_congruent(g1, g2, g1.cview().len() as int);
}

/// Marking one unsolved node solved lowers the unsolved count by one.
proof fn lemma_count_false_update(s: Seq<bool>, i: int)
    requires
        0 <= i < s.len(),
        !s[i],
    ensures
        count_false(s) >= 1,
        count_false(s.update(i, true)) == count_false(s) - 1,
    decreases s.len(),
{
    let t = s.update(i, true);
    if i == s.len() - 1 {
        assert(t.drop_last() =~= s.drop_last());
    } else {
        lemma_count_false_update(s.drop_last(), i);
        assert(t.drop_last() =~= s.drop_last().update(i, true));
        assert(t.last() == s.last());
    }
}

/// Pointwise more solved marks mean no more unsolved nodes.
proof fn lemma_count_false_pointwise(s1: Seq<bool>, s2: Seq<bool>)
    requires
        s1.len() == s2.len(),
        forall|i: int| 0 <= i < s1.len() && s1[i] ==> s2[i],
    ensures
        count_false(s2) <= count_false(s1),
    decreases s1.len(),
{
    if s1.len() > 0 {
        lemma_count_false_pointwise(s1.drop_last(), s2.drop_last());
        assert(s1.last() ==> s2.last());
    }
}

/// Evaluates the node at `target`, exactly as `eval_node_spec` says, for
/// any sufficient fuel.
fn eval_at(
    acts: &Vec<i64>,
    preds: &Vec<Vec<Edge>>,
    values: &mut Vec<i64>,
    solved: &mut Vec<bool>,
    target: usize,
) -> (v: i64)
    requires
        acts@.len() == preds@.len(),
        old(values)@.len() == preds@.len(),
        old(solved)@.len() == preds@.len(),
        target < preds@.len(),
        edges_ok(preds@),
    ensures
        final(values)@.len() == old(values)@.len(),
        final(solved)@.len() == old(solved)@.len(),
        forall|i: int| 0 <= i < old(solved)@.len() && old(solved)@[i] ==> final(solved)@[i],
        count_false(final(solved)@) <= count_false(old(solved)@),
        forall|fuel: nat|
            fuel >= count_false(old(solved)@) ==> (v, final(values)@, final(solved)@)
                == #[trigger] eval_node_spec(
                acts@,
                preds@,
                old(values)@,
                old(solved)@,
                target as int,
                fuel,
            ),
    decreases count_false(old(solved)@),
{
    let deg = preds[target].len();
    let mut acc: i64 = 0;
    let mut j: usize = 0;
    while j < deg
        invariant
            acts@.len() == preds@.len(),
            values@.len() == preds@.len(),
            solved@.len() == preds@.len(),
            old(values)@.len() == preds@.len(),
            old(solved)@.len() == preds@.len(),
            target < preds@.len(),
            edges_ok(preds@),
            j <= deg,
            deg == preds@[target as int]@.len(),
            forall|i: int| 0 <= i < old(solved)@.len() && old(solved)@[i] ==> solved@[i],
            count_false(solved@) <= count_false(old(solved)@),
            forall|fuel: nat|
                fuel >= count_false(old(solved)@) ==> eval_edges_spec(
                    acts@,
                    preds@,
                    old(values)@,
                    old(solved)@,
                    preds@[target as int]@,
                    0,
                    0,
                    fuel,
                ) == #[trigger] eval_edges_spec(
                    acts@,
                    preds@,
                    values@,
                    solved@,
                    preds@[target as int]@,
                    j as int,
                    acc as int,
                    fuel,
                ),
        decreases deg - j,
    {
        let e: Edge = preds[target][j];
        proof {
            assert(preds@[target as int]@[j as int].src < preds@.len());
        }
        if solved[e.src] {
            let ghost acc_pre = acc;
            acc = sat_add(acc, fx_mul(values[e.src], e.weight));
            proof {
                let edges = preds@[target as int]@;
                assert forall|fuel: nat| fuel >= count_false(old(solved)@) implies eval_edges_spec(
                    acts@,
                    preds@,
                    old(values)@,
                    old(solved)@,
                    edges,
                    0,
                    0,
                    fuel,
                ) == #[trigger] eval_edges_spec(
                    acts@,
                    preds@,
                    values@,
                    solved@,
                    edges,
                    j + 1,
                    acc as int,
                    fuel,
                ) by {
                    assert(eval_edges_spec(
                        acts@,
                        preds@,
                        old(values)@,
                        old(solved)@,
                        edges,
                        0,
                        0,
                        fuel,
                    ) == eval_edges_spec(
                        acts@,
                        preds@,
                        values@,
                        solved@,
                        edges,
                        j as int,
                        acc_pre as int,
                        fuel,
                    ));
                    assert(eval_edges_spec(
                        acts@,
                        preds@,
                        values@,
                        solved@,
                        edges,
                        j as int,
                        acc_pre as int,
                        fuel,
                    ) == eval_edges_spec(
                        acts@,
                        preds@,
                        values@,
                        solved@,
                        edges,
                        j + 1,
                        sat_add_spec(
                            acc_pre as int,
                            fx_mul_spec(values@[e.src as int] as int, e.weight as int),
                        ),
                        fuel,
                    ));
                }
            }
        } else {
            let ghost solved_pre = solved@;
            let ghost values_pre = values@;
            let ghost acc_pre = acc;
            proof {
                lemma_count_false_update(solved_pre, e.src as int);
            }
            solved[e.src] = true;
            let ghost marked = solved@;
            let v = eval_at(acts, preds, values, solved, e.src);
            let ghost values_eval = values@;
            let ghost solved_eval = solved@;
            values[e.src] = v;
            acc = sat_add(acc, fx_mul(v, e.weight));
            proof {
                let edges = preds@[target as int]@;
                assert(marked =~= solved_pre.update(e.src as int, true));
                assert(count_false(marked) == count_false(solved_pre) - 1);
                // one unfolding of the edge spec at every sufficient fuel
                assert forall|fuel: nat| fuel >= count_false(old(solved)@) implies eval_edges_spec(
                    acts@,
                    preds@,
                    old(values)@,
                    old(solved)@,
                    edges,
                    0,
                    0,
                    fuel,
                ) == #[trigger] eval_edges_spec(
                    acts@,
                    preds@,
                    values@,
                    solved@,
                    edges,
                    j + 1,
                    acc as int,
                    fuel,
                ) by {
                    assert(fuel >= count_false(solved_pre));
                    assert(count_false(solved_pre) >= 1);
                    assert(fuel >= 1);
                    assert((fuel - 1) as nat >= count_false(marked));
                    assert(eval_edges_spec(
                        acts@,
                        preds@,
                        old(values)@,
                        old(solved)@,
                        edges,
                        0,
                        0,
                        fuel,
                    ) == eval_edges_spec(
                        acts@,
                        preds@,
                        values_pre,
                        solved_pre,
                        edges,
                        j as int,
                        acc_pre as int,
                        fuel,
                    ));
                    assert((v, values_eval, solved_eval) == eval_node_spec(
                        acts@,
                        preds@,
                        values_pre,
                        marked,
                        e.src as int,
                        (fuel - 1) as nat,
                    ));
                    assert(values@ == values_eval.update(e.src as int, v));
                    assert(eval_edges_spec(
                        acts@,
                        preds@,
                        values_pre,
                        solved_pre,
                        edges,
                        j as int,
                        acc_pre as int,
                        fuel,
                    ) == eval_edges_spec(
                        acts@,
                        preds@,
                        values@,
                        solved@,
                        edges,
                        j + 1,
                        sat_add_spec(
                            acc_pre as int,
                            fx_mul_spec(v as int, e.weight as int),
                        ),
                        fuel,
                    ));
                }
                assert forall|i: int|
                    0 <= i < old(solved)@.len() && old(solved)@[i] implies solved@[i] by {
                    assert(solved_pre[i]);
                    assert(marked[i]);
                }
                lemma_count_false_pointwise(marked, solved_eval);
            }
        }
        j = j + 1;
    }
    let result = sigmoid(acc, acts[target]);
    proof {
        let edges = preds@[target as int]@;
        assert forall|fuel: nat| fuel >= count_false(old(solved)@) implies (
            result,
            values@,
            solved@,
        ) == #[trigger] eval_node_spec(
            acts@,
            preds@,
            old(values)@,
            old(solved)@,
            target as int,
            fuel,
        ) by {
            assert(eval_edges_spec(
                acts@,
                preds@,
                old(values)@,
                old(solved)@,
                edges,
                0,
                0,
                fuel,
            ) == eval_edges_spec(
                acts@,
                preds@,
                values@,
                solved@,
                edges,
                j as int,
                acc as int,
                fuel,
            ));
            let (sacc, sv, ss) = eval_edges_spec(
                acts@,
                preds@,
                old(values)@,
                old(solved)@,
                edges,
                0,
                0,
                fuel,
            );
            assert((sacc, sv, ss) == (acc as int, values@, solved@));
            assert(result == (sigmoid_spec(sacc, acts@[target as int] as int)) as i64);
        }
    }
    result
}

impl Network {
    /// Arena bounds: all per-node tables have one slot per node, the
    /// reserved positions exist, and every edge points into the arena.
    pub open spec fn wf(self) -> bool {
        &&& self.acts@.len() == self.values@.len()
        &&& self.preds@.len() == self.values@.len()
        &&& self.inputs + self.outputs <= self.values@.len()
        &&& edges_ok(self.preds@)
    }

    /// Compiles a genome: one runtime node per genome node (value zero,
    /// activation copied) and one incoming edge per enabled connection.
    pub fn new(genome: Genome) -> (net: Network)
        requires
            genome.wf(),
        ensures
            net.wf(),
            net.inputs == genome.inputs,
            net.outputs == genome.outputs,
            net.values@.len() == genome.nview().len(),
            net.values@ =~= zeroed(genome.nview().len()),
            net.acts@.len() == genome.nview().len(),
            forall|i: int|
                0 <= i < genome.nview().len() ==> net.acts@[i] == (#[trigger] genome.nview()[i]).1,
            preds_view(net.preds@) == compiled_preds(genome, genome.cview().len() as int),
            compiled_from(net, genome),
    {
        let n = genome.node_count();
        let mut acts: Vec<i64> = Vec::new();
        let mut values: Vec<i64> = Vec::new();
        let mut preds: Vec<Vec<Edge>> = Vec::new();
        let mut i: usize = 0;
        while i < n
            invariant
                genome.wf(),
                i <= n,
                n == genome.nview().len(),
                acts@.len() == i,
                values@.len() == i,
                preds@.len() == i,
                forall|j: int| 0 <= j < i ==> acts@[j] == (#[trigger] genome.nview()[j]).1,
                forall|j: int| 0 <= j < i ==> values@[j] == 0i64,
                forall|j: int| 0 <= j < i ==> (#[trigger] preds@[j])@.len() == 0,
            decreases n - i,
        {
            let entry = genome.node_at(i);
            acts.push(entry.1);
            values.push(0);
            preds.push(Vec::new());
            i = i + 1;
        }
        proof {
            assert(preds_view(preds@) =~~= compiled_preds(genome, 0));
        }

        let conn_total = genome.connection_count();
        let mut c: usize = 0;
        while c < conn_total
            invariant
                genome.wf(),
                c <= conn_total,
                conn_total == genome.cview().len(),
                n == genome.nview().len(),
                acts@.len() == n,
                values@.len() == n,
                preds@.len() == n,
                forall|j: int| 0 <= j < n ==> acts@[j] == (#[trigger] genome.nview()[j]).1,
                forall|j: int| 0 <= j < n ==> values@[j] == 0i64,
                edges_ok(preds@),
                preds_view(preds@) == compiled_preds(genome, c as int),
            decreases conn_total - c,
        {
            let entry = genome.connection_at(c);
            if entry.1.1 {
                let s = genome.node_index_of(entry.0.0);
                let t = genome.node_index_of(entry.0.1);
                let edge = Edge { src: s, weight: entry.1.0 };
                let ghost preds_before = preds@;
                let row: &mut Vec<Edge> = &mut preds[t];
                row.push(edge);
                proof {
                    assert forall|a: int, b: int|
                        0 <= a < preds@.len() && 0 <= b < preds@[a]@.len() implies (
                    #[trigger] preds@[a]@[b]).src < preds@.len() by {
                        if a == t as int {
                            if b < preds_before[a]@.len() {
                                assert(preds@[a]@[b] == preds_before[a]@[b]);
                            } else {
                                assert(preds@[a]@[b] == edge);
                            }
                        } else {
                            assert(preds@[a] == preds_before[a]);
                        }
                    }
                    let prior = compiled_preds(genome, c as int);
                    assert(preds_view(preds_before) == prior);
                    assert(preds_view(preds@) =~~= prior.update(
                        t as int,
                        prior[t as int].push(edge),
                    )) by {
                        assert forall|a: int| 0 <= a < preds@.len() implies preds_view(
                            preds@,
                        )[a] =~= prior.update(t as int, prior[t as int].push(edge))[a] by {
                            if a == t as int {
                                assert(preds@[a]@ =~= preds_before[a]@.push(edge));
                                assert(preds_view(preds_before)[a] == preds_before[a]@);
                            } else {
                                assert(preds@[a] == preds_before[a]);
                            }
                        }
                    }
                }
            }
            c = c + 1;
        }

        let net = Network { acts, preds, values, inputs: genome.inputs, outputs: genome.outputs };
        proof {
            assert(net.values@ =~= zeroed(genome.nview().len()));
        }
        net
    }

    /// Assigns the inputs positionally to the first `inputs` nodes.
    fn set_inputs(&mut self, ins: &Vec<i64>)
        requires
            old(self).wf(),
            ins@.len() == old(self).inputs as int,
        ensures
            final(self).wf(),
            final(self).acts == old(self).acts,
            final(self).preds == old(self).preds,
            final(self).inputs == old(self).inputs,
            final(self).outputs == old(self).outputs,
            final(self).values@ =~= set_inputs_spec(old(self).values@, ins@),
    {
        let k = ins.len();
        let mut i: usize = 0;
        while i < k
            invariant
                i <= k,
                k <= self.values@.len(),
                self.acts == old(self).acts,
                self.preds == old(self).preds,
                self.inputs == old(self).inputs,
                self.outputs == old(self).outputs,
                self.values@.len() == old(self).values@.len(),
                ins@.len() == k,
                forall|j: int| 0 <= j < i ==> self.values@[j] == ins@[j],
                forall|j: int| i <= j < self.values@.len() ==> self.values@[j] == old(
                    self,
                ).values@[j],
            decreases k - i,
        {
            let v = ins[i];
            self.values[i] = v;
            i = i + 1;
        }
    }

    /// The current values of the output nodes, in order.
    pub fn get_outputs(&self) -> (r: Vec<i64>)
        requires
            self.wf(),
        ensures
            r@.len() == self.outputs as int,
            forall|j: int| 0 <= j < self.outputs as int ==> r@[j] == self.values@[self.inputs + j],
    {
        let mut r: Vec<i64> = Vec::new();
        let mut j: usize = 0;
        let base = self.inputs as usize;
        while j < self.outputs as usize
            invariant
                self.wf(),
                base == self.inputs as int,
                j <= self.outputs as usize,
                r@.len() == j,
                forall|p: int| 0 <= p < j ==> r@[p] == self.values@[self.inputs + p],
            decreases self.outputs as usize - j,
        {
            r.push(self.values[base + j]);
            j = j + 1;
        }
        r
    }

    /// Zeroes every node value; the structure is untouched.
    pub fn reset(&mut self)
        requires
            old(self).wf(),
        ensures
            final(self).wf(),
            final(self).acts == old(self).acts,
            final(self).preds == old(self).preds,
            final(self).inputs == old(self).inputs,
            final(self).outputs == old(self).outputs,
            final(self).values@ =~= zeroed(old(self).values@.len()),
    {
        let n = self.values.len();
        let mut i: usize = 0;
        while i < n
            invariant
                i <= n,
                n == self.values@.len(),
                self.acts == old(self).acts,
                self.preds == old(self).preds,
                self.inputs == old(self).inputs,
                self.outputs == old(self).outputs,
                self.values@.len() == old(self).values@.len(),
                forall|j: int| 0 <= j < i ==> self.values@[j] == 0i64,
            decreases n - i,
        {
            self.values[i] = 0;
            i = i + 1;
        }
    }

    /// Propagates the inputs through the network: assigns them, marks the
    /// input nodes solved, then evaluates each output node in order. The
    /// resulting values are exactly `prop_spec` of the structure, the old
    /// values and the inputs.
    pub fn prop(&mut self, ins: Vec<i64>)
        requires
            old(self).wf(),
            ins@.len() == old(self).inputs as int,
        ensures
            final(self).wf(),
            final(self).acts == old(self).acts,
            final(self).preds == old(self).preds,
            final(self).inputs == old(self).inputs,
            final(self).outputs == old(self).outputs,
            final(self).values@.len() == old(self).values@.len(),
            final(self).values@ == prop_spec(
                old(self).acts@,
                old(self).preds@,
                old(self).inputs as int,
                old(self).outputs as int,
                old(self).values@,
                ins@,
            ),
    {
        self.set_inputs(&ins);
        let n = self.values.len();
        let mut solved: Vec<bool> = Vec::new();
        let mut i: usize = 0;
        while i < n
            invariant
                i <= n,
                solved@.len() == i,
                forall|j: int| 0 <= j < i ==> solved@[j] == (j < self.inputs as int),
            decreases n - i,
        {
            solved.push(i < self.inputs as usize);
            i = i + 1;
        }
        proof {
            assert(solved@ =~= init_solved(self.values@.len(), self.inputs as int));
        }

        let ghost v0 = self.values@;
        let ghost s0 = solved@;
        let outs = self.outputs as usize;
        let base = self.inputs as usize;
        let mut k: usize = 0;
        while k < outs
            invariant
                self.wf(),
                self.acts == old(self).acts,
                self.preds == old(self).preds,
                self.inputs == old(self).inputs,
                self.outputs == old(self).outputs,
                self.values@.len() == old(self).values@.len(),
                solved@.len() == self.values@.len(),
                base == self.inputs as int,
                outs == self.outputs as int,
                k <= outs,
                (self.values@, solved@) == prop_outputs_spec(
                    old(self).acts@,
                    old(self).preds@,
                    old(self).inputs as int,
                    v0,
                    s0,
                    k as int,
                ),
            decreases outs - k,
        {
            let ghost vals_pre = self.values@;
            let ghost solved_pre = solved@;
            let o = base + k;
            let v = eval_at(&self.acts, &self.preds, &mut self.values, &mut solved, o);
            let ghost vals_eval = self.values@;
            self.values[o] = v;
            proof {
                let fuel = count_false(solved_pre);
                assert((v, vals_eval, solved@) == eval_node_spec(
                    self.acts@,
                    self.preds@,
                    vals_pre,
                    solved_pre,
                    o as int,
                    fuel,
                ));
                assert(self.values@ == vals_eval.update(o as int, v));
            }
            k = k + 1;
        }
    }

    /// Drives a fresh task instance to completion: read the current
    /// outputs, feed them to the task, propagate the task's reply, until
    /// the task reports a score. Returns `None` if the task ever hands
    /// back an input vector of the wrong length (a protocol violation the
    /// caller must treat as fatal) or if an enormous step budget runs out.
    pub fn run<T: Task>(&mut self) -> (score: Option<i64>)
        requires
            old(self).wf(),
        ensures
            final(self).wf(),
            final(self).acts == old(self).acts,
            final(self).preds == old(self).preds,
            final(self).inputs == old(self).inputs,
            final(self).outputs == old(self).outputs,
            final(self).values@.len() == old(self).values@.len(),
    {
        let mut task = T::new(rng::seed());
        let mut guard: u64 = 0xFFFF_FFFF_FFFF_FFFF;
        while guard > 0
            invariant
                self.wf(),
                self.acts == old(self).acts,
                self.preds == old(self).preds,
                self.inputs == old(self).inputs,
                self.outputs == old(self).outputs,
                self.values@.len() == old(self).values@.len(),
            decreases guard,
        {
            if let Some(s) = task.score() {
                return Some(s);
            }
            let outputs = self.get_outputs();
            let next = task.step(outputs);
            if next.len() != self.inputs as usize {
                return None;
            }
            self.prop(next);
            guard = guard - 1;
        }
        task.score()
    }
}

/// After a reset, propagation is a function of the network structure and
/// the inputs alone: two networks with the same structure, freshly reset,
/// yield the same values (and so the same outputs) for the same inputs.
pub proof fn lemma_reset_prop_deterministic(a: Network, b: Network, ins: Seq<i64>)
    requires
        a.acts == b.acts,
        a.preds == b.preds,
        a.inputs == b.inputs,
        a.outputs == b.outputs,
        a.values@.len() == b.values@.len(),
    ensures
        prop_spec(
            a.acts@,
            a.preds@,
            a.inputs as int,
            a.outputs as int,
            zeroed(a.values@.len()),
            ins,
        ) == prop_spec(
            b.acts@,
            b.preds@,
            b.inputs as int,
            b.outputs as int,
            zeroed(b.values@.len()),
            ins,
        ),
{
}

} // verus!
