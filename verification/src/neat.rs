//! The population controller: owns the organisms, runs the generational
//! loop (evaluate, speciate, cull, repopulate) and tracks the best
//! organism seen so far.
//!
//! Fitness is a fixed-point `i64`, so every pair of scores is comparable
//! and culling never meets an incomparable value. Tasks that break the
//! input-length protocol surface as a `None` from `step` instead of
//! aborting the process.

use vstd::prelude::*;
use core::marker::PhantomData;
use rayon::iter::IntoParallelRefMutIterator;
use rayon::iter::ParallelIterator;

use crate::genome::Genome;
use crate::genome::same_species_spec;
use crate::innovation::InnovationCounter;
use crate::innovation::key_of;
use crate::network::Network;
use crate::network::Task;
use crate::rng;
use crate::settings::NeatSettings;

verus! {

broadcast use
    vstd::seq_lib::group_to_multiset_ensures,
    vstd::multiset::group_multiset_properties,
;

/// A genome paired with its fitness for the current generation; `None`
/// means not yet evaluated.
pub struct Organism {
    /// The organism's genome.
    pub genome: Genome,
    /// The score of the most recent evaluation, if any.
    pub fitness: Option<i64>,
}

/// An organism's fitness for comparisons; unevaluated organisms rank at
/// the bottom.
pub open spec fn fit(o: Organism) -> i64 {
    match o.fitness {
        Some(f) => f,
        None => i64::MIN,
    }
}

/// Two organisms that carry the same genome tables, counts and fitness;
/// what an `Organism::clone` guarantees about its copy.
pub open spec fn same_org(a: Organism, b: Organism) -> bool {
    &&& a.genome.inputs == b.genome.inputs
    &&& a.genome.outputs == b.genome.outputs
    &&& a.genome.nview() == b.genome.nview()
    &&& a.genome.cview() == b.genome.cview()
    &&& a.fitness == b.fitness
}

/// The first group of `p` whose representative (its first member) is the
/// same species as organism `i`, scanning from position `g`; `p.len()`
/// when none matches.
pub open spec fn first_match(
    p: Seq<Seq<int>>,
    pop: Seq<Organism>,
    s: NeatSettings,
    i: int,
    g: int,
) -> int
    decreases p.len() - g,
{
    if g < 0 || g >= p.len() {
        p.len() as int
    } else if same_species_spec(pop[p[g][0]].genome, pop[i].genome, s) {
        g
    } else {
        first_match(p, pop, s, i, g + 1)
    }
}

/// The greedy species partition of the first `n` organisms, as groups of
/// population indices: each organism joins the first group whose
/// representative matches it, else founds a new group.
pub open spec fn species_partition(pop: Seq<Organism>, s: NeatSettings, n: int) -> Seq<Seq<int>>
    decreases n,
{
    if n <= 0 {
        Seq::empty()
    } else {
        let p = species_partition(pop, s, n - 1);
        let g = first_match(p, pop, s, n - 1, 0);
        if g < p.len() {
            p.update(g, p[g].push(n - 1))
        } else {
            p.push(seq![n - 1])
        }
    }
}

/// How many organisms culling keeps at least: nothing from a singleton
/// group, the top half (rounded down) from every larger group.
pub open spec fn kept_low(p: Seq<Seq<int>>) -> int
    decreases p.len(),
{
    if p.len() == 0 {
        0
    } else {
        (if p[0].len() == 1 {
            0int
        } else {
            p[0].len() as int / 2
        }) + kept_low(p.drop_first())
    }
}

/// How many organisms culling keeps at most: one from a singleton group,
/// the top half (rounded down) from every larger group.
pub open spec fn kept_high(p: Seq<Seq<int>>) -> int
    decreases p.len(),
{
    if p.len() == 0 {
        0
    } else {
        (if p[0].len() == 1 {
            1int
        } else {
            p[0].len() as int / 2
        }) + kept_high(p.drop_first())
    }
}

/// Scanning for the first matching representative can skip a prefix of
/// known non-matches.
proof fn lemma_first_match_skip(
    p: Seq<Seq<int>>,
    pop: Seq<Organism>,
    s: NeatSettings,
    i: int,
    j: int,
)
    requires
        0 <= j <= p.len(),
        forall|g: int|
            0 <= g < j ==> !same_species_spec(pop[#[trigger] p[g][0]].genome, pop[i].genome, s),
    ensures
        first_match(p, pop, s, i, 0) == first_match(p, pop, s, i, j),
    decreases j,
{
    if j > 0 {
        lemma_first_match_skip(p, pop, s, i, j - 1);
    }
}

/// What every organism of a population satisfies: a well-formed genome
/// with the population-wide input/output counts, every connection
/// registered.
pub open spec fn org_ok(o: Organism, anchor: Genome, reg: InnovationCounter) -> bool {
    &&& o.genome.wf()
    &&& o.genome.inputs == anchor.inputs
    &&& o.genome.outputs == anchor.outputs
    &&& o.genome.registered_in(reg)
}

impl Organism {
    /// Wraps a genome with no fitness yet.
    pub fn new(genome: Genome) -> (o: Organism)
        ensures
            o.genome == genome,
            o.fitness is None,
    {
        Organism { genome, fitness: None }
    }

    /// The recorded fitness; callers must know one exists.
    fn fitness_value(&self) -> (r: i64)
        requires
            self.fitness is Some,
        ensures
            r == fit(*self),
    {
        match self.fitness {
            Some(f) => f,
            None => {
                proof {
                    assert(false);
                }
                0
            },
        }
    }
}

impl Clone for Organism {
    /// The copy carries the same genome tables and the same fitness.
    fn clone(&self) -> (r: Organism)
        ensures
            r.genome.inputs == self.genome.inputs,
            r.genome.outputs == self.genome.outputs,
            r.genome.nview() == self.genome.nview(),
            r.genome.cview() == self.genome.cview(),
            r.fitness == self.fitness,
    {
        Organism { genome: self.genome.clone(), fitness: self.fitness }
    }
}

/// Total number of organisms across all species groups, in group order.
pub open spec fn flat_len(groups: Seq<Vec<Organism>>) -> int
    decreases groups.len(),
{
    if groups.len() == 0 {
        0
    } else {
        groups[0]@.len() + flat_len(groups.drop_first())
    }
}

proof fn lemma_flat_len_push(groups: Seq<Vec<Organism>>, g: Vec<Organism>)
    ensures
        flat_len(groups.push(g)) == flat_len(groups) + g@.len(),
    decreases groups.len(),
{
    if groups.len() == 0 {
        assert(groups.push(g)[0] == g);
        assert(groups.push(g).drop_first() =~= Seq::<Vec<Organism>>::empty());
        assert(flat_len(groups.push(g).drop_first()) == 0);
    } else {
        lemma_flat_len_push(groups.drop_first(), g);
        assert(groups.push(g)[0] == groups[0]);
        assert(groups.push(g).drop_first() =~= groups.drop_first().push(g));
    }
}

proof fn lemma_flat_len_update(groups: Seq<Vec<Organism>>, j: int, g: Vec<Organism>)
    requires
        0 <= j < groups.len(),
    ensures
        flat_len(groups.update(j, g)) == flat_len(groups) - groups[j]@.len() + g@.len(),
    decreases groups.len(),
{
    if j == 0 {
        assert(groups.update(0, g).drop_first() =~= groups.drop_first());
    } else {
        lemma_flat_len_update(groups.drop_first(), j - 1, g);
        assert(groups.update(j, g).drop_first() =~= groups.drop_first().update(j - 1, g));
    }
}

/// Connection keys stay registered when the registry only grows.
proof fn lemma_registered_mono(g: Genome, r1: InnovationCounter, r2: InnovationCounter)
    requires
        g.registered_in(r1),
        r1.table().submap_of(r2.table()),
    ensures
        g.registered_in(r2),
{
    assert forall|i: int| 0 <= i < g.cview().len() implies r2.table().contains_key(
        key_of((#[trigger] g.cview()[i]).0),
    ) by {
        assert(r1.table().contains_key(key_of(g.cview()[i].0)));
    }
}

/// Sorts organisms by fitness, highest first: a permutation of the input,
/// totally ordered because fitness is an integer.
fn sort_desc(group: Vec<Organism>) -> (sorted: Vec<Organism>)
    requires
        forall|i: int| 0 <= i < group@.len() ==> (#[trigger] group@[i]).fitness is Some,
    ensures
        sorted@.len() == group@.len(),
        sorted@.to_multiset() == group@.to_multiset(),
        forall|p: int, q: int|
            0 <= p <= q < sorted@.len() ==> fit(#[trigger] sorted@[p]) >= fit(
                #[trigger] sorted@[q],
            ),
        forall|i: int| 0 <= i < sorted@.len() ==> (#[trigger] sorted@[i]).fitness is Some,
{
    let ghost orig = group@;
    let mut rest = group;
    let mut out: Vec<Organism> = Vec::new();
    while rest.len() > 0
        invariant
            out@.len() + rest@.len() == orig.len(),
            out@.to_multiset().add(rest@.to_multiset()) == orig.to_multiset(),
            forall|i: int| 0 <= i < rest@.len() ==> (#[trigger] rest@[i]).fitness is Some,
            forall|i: int| 0 <= i < out@.len() ==> (#[trigger] out@[i]).fitness is Some,
            forall|p: int, q: int|
                0 <= p <= q < out@.len() ==> fit(#[trigger] out@[p]) >= fit(#[trigger] out@[q]),
            forall|p: int, q: int|
                0 <= p < out@.len() && 0 <= q < rest@.len() ==> fit(#[trigger] out@[p]) >= fit(
                    #[trigger] rest@[q],
                ),
        decreases rest@.len(),
    {
        let mut m: usize = 0;
        let mut j: usize = 1;
        while j < rest.len()
            invariant
                rest@.len() > 0,
                m < j,
                j <= rest@.len(),
                forall|i: int| 0 <= i < rest@.len() ==> (#[trigger] rest@[i]).fitness is Some,
                forall|q: int| 0 <= q < j ==> fit(rest@[m as int]) >= fit(#[trigger] rest@[q]),
            decreases rest@.len() - j,
        {
            if rest[j].fitness_value() > rest[m].fitness_value() {
                m = j;
            }
            j = j + 1;
        }
        let ghost rest_pre = rest@;
        let ghost out_pre = out@;
        let picked = rest.remove(m);
        out.push(picked);
        proof {
            assert(rest@ == rest_pre.remove(m as int));
            assert(rest_pre.contains(picked));
            assert(rest_pre.to_multiset().count(picked) > 0);
            assert(rest@.to_multiset() =~= rest_pre.to_multiset().remove(picked));
            assert(out@.to_multiset() =~= out_pre.to_multiset().insert(picked));
            assert(out@.to_multiset().add(rest@.to_multiset()) =~= out_pre.to_multiset().add(
                rest_pre.to_multiset(),
            ));
            // the removed maximum dominates everything that remains
            assert forall|q: int| 0 <= q < rest@.len() implies fit(picked) >= fit(
                #[trigger] rest@[q],
            ) by {
                if q < m as int {
                    assert(rest@[q] == rest_pre[q]);
                } else {
                    assert(rest@[q] == rest_pre[q + 1]);
                }
            }
        }
    }
    out
}

/// Culls one species group: sorted by fitness, only the top half (rounded
/// down) survives. A group of two or more always keeps at least one
/// member.
pub fn retain_top_half(group: Vec<Organism>) -> (kept: Vec<Organism>)
    requires
        forall|i: int| 0 <= i < group@.len() ==> (#[trigger] group@[i]).fitness is Some,
    ensures
        kept@.len() == group@.len() / 2,
        group@.len() >= 2 ==> kept@.len() >= 1,
        forall|i: int|
            0 <= i < kept@.len() ==> group@.to_multiset().count(#[trigger] kept@[i]) > 0,
        forall|p: int, q: int|
            0 <= p <= q < kept@.len() ==> fit(#[trigger] kept@[p]) >= fit(#[trigger] kept@[q]),
        forall|i: int| 0 <= i < kept@.len() ==> (#[trigger] kept@[i]).fitness is Some,
{
    let mut sorted = sort_desc(group);
    let ghost full = sorted@;
    let half = sorted.len() / 2;
    sorted.truncate(half);
    proof {
        assert(sorted@ =~= full.subrange(0, half as int));
        assert forall|i: int|
            0 <= i < sorted@.len() implies group@.to_multiset().count(#[trigger] sorted@[i])
            > 0 by {
            assert(sorted@[i] == full[i]);
            assert(full.contains(full[i]));
            assert(full.to_multiset().count(full[i]) > 0);
        }
    }
    sorted
}

/// Runs the genetic algorithm for one task type.
pub struct Neat<T: Task> {
    /// Target population size.
    pub size: usize,
    /// The current organisms.
    pub population: Vec<Organism>,
    /// Number of species found by the most recent speciation.
    pub species_count: usize,
    /// The shared innovation registry.
    pub innovations: InnovationCounter,
    /// The tuning parameters.
    pub settings: NeatSettings,
    /// Best organism seen so far (seeded with the minimum fitness).
    pub best: Organism,
    /// The task type this controller trains on.
    pub phantom: PhantomData<T>,
}

impl<T: Task + Sync> Neat<T> {
    /// Structural soundness of the whole controller.
    pub open spec fn wf(self) -> bool {
        &&& 1 <= self.size <= usize::MAX / 3
        &&& self.settings.wf()
        &&& self.innovations.wf()
        &&& self.best.genome.wf()
        &&& self.best.genome.outputs >= 1
        &&& self.best.fitness is Some
        &&& self.best.genome.registered_in(self.innovations)
        &&& self.population@.len() <= self.size
        &&& (forall|i: int|
            0 <= i < self.population@.len() ==> org_ok(
                #[trigger] self.population@[i],
                self.best.genome,
                self.innovations,
            ))
    }

    /// Creates a controller with the default settings.
    pub fn default(size: usize, inputs: u16, outputs: u16) -> (r: Neat<T>)
        requires
            1 <= size <= usize::MAX / 3,
            inputs + outputs <= u16::MAX,
            outputs >= 1,
        ensures
            r.wf(),
            r.size == size,
            r.population@.len() == size,
            r.settings == NeatSettings::default_spec(),
            forall|i: int|
                0 <= i < size ==> {
                    &&& (#[trigger] r.population@[i]).fitness is None
                    &&& r.population@[i].genome.inputs == inputs
                    &&& r.population@[i].genome.outputs == outputs
                },
            r.best.genome.inputs == inputs,
            r.best.genome.outputs == outputs,
            r.best.fitness == Some(i64::MIN),
            r.species_count == 0,
    {
        Neat::new(size, inputs, outputs, NeatSettings::default())
    }

    /// Seeds `size` organisms from the minimal genome, each structurally
    /// mutated once, and a sentinel best organism carrying the minimum
    /// fitness so the first real evaluation supersedes it.
    pub fn new(size: usize, inputs: u16, outputs: u16, settings: NeatSettings) -> (r: Neat<T>)
        requires
            1 <= size <= usize::MAX / 3,
            inputs + outputs <= u16::MAX,
            outputs >= 1,
            settings.wf(),
        ensures
            r.wf(),
            r.size == size,
            r.settings == settings,
            r.population@.len() == size,
            forall|i: int|
                0 <= i < size ==> {
                    &&& (#[trigger] r.population@[i]).fitness is None
                    &&& r.population@[i].genome.inputs == inputs
                    &&& r.population@[i].genome.outputs == outputs
                },
            r.best.genome.inputs == inputs,
            r.best.genome.outputs == outputs,
            r.best.fitness == Some(i64::MIN),
            r.species_count == 0,
            // the registry is seeded above the reserved node ids, so every
            // identifier it ever issues names a fresh hidden node
            r.innovations.counter() >= inputs + outputs - 1,
            forall|k: u32| #[trigger]
                r.innovations.table().contains_key(k) ==> r.innovations.table()[k] >= inputs
                    + outputs,
    {
        let mut innovations = InnovationCounter::new(inputs + outputs);
        let mut population: Vec<Organism> = Vec::new();
        let mut k: usize = 0;
        while k < size
            invariant
                k <= size,
                settings.wf(),
                innovations.wf(),
                outputs >= 1,
                inputs + outputs <= u16::MAX,
                innovations.counter() >= inputs + outputs - 1,
                forall|k2: u32| #[trigger]
                    innovations.table().contains_key(k2) ==> innovations.table()[k2] >= inputs
                        + outputs,
                population@.len() == k,
                forall|i: int|
                    0 <= i < k ==> {
                        &&& (#[trigger] population@[i]).genome.wf()
                        &&& population@[i].genome.inputs == inputs
                        &&& population@[i].genome.outputs == outputs
                        &&& population@[i].genome.registered_in(innovations)
                        &&& population@[i].fitness is None
                    },
            decreases size - k,
        {
            let ghost reg0 = innovations;
            let mut genome = Genome::new(inputs, outputs);
            genome.add_connection(&mut innovations, &settings);
            let ghost reg1 = innovations;
            genome.mutate(&mut innovations, &settings);
            proof {
                vstd::map_lib::lemma_submap_of_trans(
                    reg0.table(),
                    reg1.table(),
                    innovations.table(),
                );
                assert forall|i: int| 0 <= i < k implies (
                #[trigger] population@[i]).genome.registered_in(innovations) by {
                    lemma_registered_mono(population@[i].genome, reg0, innovations);
                }
            }
            population.push(Organism::new(genome));
            k = k + 1;
        }
        let mut best = population[0].clone();
        best.fitness = Some(i64::MIN);
        Neat {
            size,
            population,
            species_count: 0,
            innovations,
            settings,
            best,
            phantom: PhantomData,
        }
    }

    /// Number of species found during the most recent speciation step.
    pub fn species(&self) -> (r: usize)
        ensures
            r == self.species_count,
    {
        self.species_count
    }

    /// Single-pass greedy clustering of the population: each organism
    /// joins the first group whose representative (its first member) is
    /// the same species, else founds a new group; the result is exactly
    /// `species_partition`, member by member. Along the way the best
    /// organism seen so far is updated to the population maximum; under
    /// `reset_fitness` it is first re-evaluated.
    fn speciate(&mut self) -> (groups: Vec<Vec<Organism>>)
        requires
            old(self).wf(),
            forall|i: int|
                0 <= i < old(self).population@.len() ==> (#[trigger] old(
                    self,
                ).population@[i]).fitness is Some,
        ensures
            final(self).wf(),
            final(self).population == old(self).population,
            final(self).innovations == old(self).innovations,
            final(self).settings == old(self).settings,
            final(self).size == old(self).size,
            final(self).species_count == groups@.len(),
            flat_len(groups@) == final(self).population@.len(),
            forall|g: int|
                0 <= g < groups@.len() ==> (#[trigger] groups@[g])@.len() >= 1,
            forall|g: int, i: int|
                0 <= g < groups@.len() && 0 <= i < groups@[g]@.len() ==> org_ok(
                    #[trigger] groups@[g]@[i],
                    final(self).best.genome,
                    final(self).innovations,
                ) && groups@[g]@[i].fitness is Some,
            // every later member matched its group's representative
            forall|g: int, i: int|
                0 <= g < groups@.len() && 1 <= i < groups@[g]@.len() ==> same_species_spec(
                    (groups@[g]@[0]).genome,
                    (#[trigger] groups@[g]@[i]).genome,
                    final(self).settings,
                ),
            // representatives of distinct groups are distinct species
            forall|g1: int, g2: int|
                0 <= g1 < g2 < groups@.len() ==> !same_species_spec(
                    (#[trigger] groups@[g1]@[0]).genome,
                    (#[trigger] groups@[g2]@[0]).genome,
                    final(self).settings,
                ),
            // the tracked best dominates the whole population
            forall|i: int|
                0 <= i < final(self).population@.len() ==> fit(final(self).best) >= fit(
                    #[trigger] final(self).population@[i],
                ),
            // without re-evaluation the best is exactly the maximum of the
            // old best and the population, and ties keep the old best
            !old(self).settings.reset_fitness ==> fit(final(self).best) >= fit(old(self).best),
            !old(self).settings.reset_fitness ==> (final(self).best == old(self).best || exists|i: int|
                0 <= i < old(self).population@.len() && fit(final(self).best) == fit(
                    #[trigger] old(self).population@[i],
                )),
            (!old(self).settings.reset_fitness && (forall|i: int|
                0 <= i < old(self).population@.len() ==> fit(#[trigger] old(self).population@[i])
                    <= fit(old(self).best))) ==> final(self).best == old(self).best,
            // the groups are exactly the greedy species partition of the
            // population, in first-match order, member by member
            ({
                let p = species_partition(
                    final(self).population@,
                    final(self).settings,
                    final(self).population@.len() as int,
                );
                &&& groups@.len() == p.len()
                &&& (forall|g: int|
                    0 <= g < p.len() ==> (#[trigger] groups@[g])@.len() == p[g].len())
                &&& (forall|g: int, q: int|
                    0 <= g < p.len() && 0 <= q < p[g].len() ==> 0 <= #[trigger] p[g][q]
                        < final(self).population@.len() && same_org(
                        groups@[g]@[q],
                        final(self).population@[p[g][q]],
                    ))
            }),
    {
        if self.settings.reset_fitness {
            let mut net = Network::new(self.best.genome.clone());
            match net.run::<T>() {
                Some(f) => {
                    self.best.fitness = Some(f);
                },
                None => {},
            }
        }

        let mut groups: Vec<Vec<Organism>> = Vec::new();
        let n = self.population.len();
        let mut i: usize = 0;
        while i < n
            invariant
                self.wf(),
                i <= n,
                n == self.population@.len(),
                self.population == old(self).population,
                self.innovations == old(self).innovations,
                self.settings == old(self).settings,
                self.size == old(self).size,
                self.best.genome.inputs == old(self).best.genome.inputs,
                self.best.genome.outputs == old(self).best.genome.outputs,
                forall|p: int|
                    0 <= p < n ==> (#[trigger] self.population@[p]).fitness is Some,
                flat_len(groups@) == i,
                forall|g: int| 0 <= g < groups@.len() ==> (#[trigger] groups@[g])@.len() >= 1,
                forall|g: int, q: int|
                    0 <= g < groups@.len() && 0 <= q < groups@[g]@.len() ==> org_ok(
                        #[trigger] groups@[g]@[q],
                        self.best.genome,
                        self.innovations,
                    ) && groups@[g]@[q].fitness is Some,
                forall|g: int, q: int|
                    0 <= g < groups@.len() && 1 <= q < groups@[g]@.len() ==> same_species_spec(
                        (groups@[g]@[0]).genome,
                        (#[trigger] groups@[g]@[q]).genome,
                        self.settings,
                    ),
                forall|g1: int, g2: int|
                    0 <= g1 < g2 < groups@.len() ==> !same_species_spec(
                        (#[trigger] groups@[g1]@[0]).genome,
                        (#[trigger] groups@[g2]@[0]).genome,
                        self.settings,
                    ),
                forall|p: int| 0 <= p < i ==> fit(self.best) >= fit(#[trigger] self.population@[p]),
                !old(self).settings.reset_fitness ==> fit(self.best) >= fit(old(self).best),
                !old(self).settings.reset_fitness ==> (self.best == old(self).best || exists|p: int|
                    0 <= p < i && fit(self.best) == fit(#[trigger] self.population@[p])),
                (!old(self).settings.reset_fitness && (forall|p: int|
                    0 <= p < i ==> fit(#[trigger] self.population@[p]) <= fit(old(self).best)))
                    ==> self.best == old(self).best,
                ({
                    let p = species_partition(self.population@, self.settings, i as int);
                    &&& groups@.len() == p.len()
                    &&& (forall|g: int|
                        0 <= g < p.len() ==> (#[trigger] groups@[g])@.len() == p[g].len())
                    &&& (forall|g: int, q: int|
                        0 <= g < p.len() && 0 <= q < p[g].len() ==> 0 <= #[trigger] p[g][q] < i
                            && same_org(groups@[g]@[q], self.population@[p[g][q]]))
                }),
            decreases n - i,
        {
            let of = self.population[i].fitness_value();
            let bf = self.best.fitness_value();
            let ghost best_pre = self.best;
            if of > bf {
                self.best = self.population[i].clone();
                proof {
                    assert(fit(self.best) == fit(self.population@[i as int]));
                }
            }
            proof {
                if !old(self).settings.reset_fitness {
                    if self.best != best_pre {
                        assert(0 <= i < n && fit(self.best) == fit(
                            self.population@[i as int],
                        ));
                    } else {
                        if best_pre != old(self).best {
                            let w = choose|p: int|
                                0 <= p < i && fit(best_pre) == fit(self.population@[p]);
                            assert(0 <= w < i + 1 && fit(self.best) == fit(
                                self.population@[w],
                            ));
                        }
                    }
                }
            }

            let glen = groups.len();
            let mut j: usize = 0;
            let mut found: Option<usize> = None;
            while j < glen && found.is_none()
                invariant
                    glen == groups@.len(),
                    j <= glen,
                    i < self.population@.len(),
                    forall|g: int| 0 <= g < groups@.len() ==> (#[trigger] groups@[g])@.len() >= 1,
                    found matches Some(p) ==> p < glen && same_species_spec(
                        (groups@[p as int]@[0]).genome,
                        self.population@[i as int].genome,
                        self.settings,
                    ) && (forall|g: int|
                        0 <= g < p ==> !same_species_spec(
                            (#[trigger] groups@[g]@[0]).genome,
                            self.population@[i as int].genome,
                            self.settings,
                        )),
                    found is None ==> forall|g: int|
                        0 <= g < j ==> !same_species_spec(
                            (#[trigger] groups@[g]@[0]).genome,
                            self.population@[i as int].genome,
                            self.settings,
                        ),
                decreases glen - j,
            {
                if Genome::same_species(
                    &groups[j][0].genome,
                    &self.population[i].genome,
                    &self.settings,
                ) {
                    found = Some(j);
                }
                j = j + 1;
            }

            let member = self.population[i].clone();
            proof {
                assert(org_ok(
                    self.population@[i as int],
                    self.best.genome,
                    self.innovations,
                ));
            }
            proof {
                // the stored representatives and the partition's agree on
                // species membership, so the scan computed `first_match`
                let pi = species_partition(self.population@, self.settings, i as int);
                assert forall|g: int| 0 <= g < pi.len() implies same_species_spec(
                    (#[trigger] groups@[g]@[0]).genome,
                    self.population@[i as int].genome,
                    self.settings,
                ) == same_species_spec(
                    self.population@[pi[g][0]].genome,
                    self.population@[i as int].genome,
                    self.settings,
                ) by {
                    assert(groups@[g]@.len() >= 1);
                    assert(same_org(groups@[g]@[0], self.population@[pi[g][0]]));
                }
            }
            match found {
                Some(p) => {
                    proof {
                        let pi = species_partition(self.population@, self.settings, i as int);
                        assert forall|g: int|
                            0 <= g < p implies !same_species_spec(
                            self.population@[#[trigger] pi[g][0]].genome,
                            self.population@[i as int].genome,
                            self.settings,
                        ) by {
                            assert(!same_species_spec(
                                (groups@[g]@[0]).genome,
                                self.population@[i as int].genome,
                                self.settings,
                            ));
                        }
                        lemma_first_match_skip(
                            pi,
                            self.population@,
                            self.settings,
                            i as int,
                            p as int,
                        );
                        assert(same_species_spec(
                            self.population@[pi[p as int][0]].genome,
                            self.population@[i as int].genome,
                            self.settings,
                        ));
                        assert(first_match(pi, self.population@, self.settings, i as int, 0)
                            == p as int);
                    }
                    let ghost groups_before = groups@;
                    let row: &mut Vec<Organism> = &mut groups[p];
                    row.push(member);
                    proof {
                        lemma_flat_len_update(
                            groups_before,
                            p as int,
                            groups@[p as int],
                        );
                        assert(groups@[p as int]@ =~= groups_before[p as int]@.push(member));
                        assert(same_species_spec(
                            (groups@[p as int]@[0]).genome,
                            member.genome,
                            self.settings,
                        )) by {
                            assert(groups@[p as int]@[0] == groups_before[p as int]@[0]);
                            assert(member.genome.cview() == self.population@[
                                i as int
                            ].genome.cview());
                        }
                        // the partition takes the same step
                        let pi = species_partition(self.population@, self.settings, i as int);
                        let pnext = species_partition(
                            self.population@,
                            self.settings,
                            i + 1 as int,
                        );
                        assert(pnext == pi.update(p as int, pi[p as int].push(i as int)));
                        assert(same_org(member, self.population@[i as int]));
                        assert forall|g: int, q: int|
                            0 <= g < pnext.len() && 0 <= q < pnext[g].len() implies 0 <= (
                        #[trigger] pnext[g][q]) < i + 1 && same_org(
                            groups@[g]@[q],
                            self.population@[pnext[g][q]],
                        ) by {
                            if g == p as int && q == pi[p as int].len() {
                                assert(pnext[g][q] == i as int);
                                assert(groups@[g]@[q] == member);
                            } else {
                                assert(pnext[g][q] == pi[g][q]);
                                if g == p as int {
                                    assert(groups@[g]@[q] == groups_before[g]@[q]);
                                } else {
                                    assert(groups@[g] == groups_before[g]);
                                }
                            }
                        }
                    }
                },
                None => {
                    proof {
                        let pi = species_partition(self.population@, self.settings, i as int);
                        assert forall|g: int|
                            0 <= g < pi.len() implies !same_species_spec(
                            self.population@[#[trigger] pi[g][0]].genome,
                            self.population@[i as int].genome,
                            self.settings,
                        ) by {
                            assert(!same_species_spec(
                                (groups@[g]@[0]).genome,
                                self.population@[i as int].genome,
                                self.settings,
                            ));
                        }
                        lemma_first_match_skip(
                            pi,
                            self.population@,
                            self.settings,
                            i as int,
                            pi.len() as int,
                        );
                        assert(first_match(pi, self.population@, self.settings, i as int, 0)
                            == pi.len());
                    }
                    let mut fresh: Vec<Organism> = Vec::new();
                    fresh.push(member);
                    let ghost groups_before = groups@;
                    proof {
                        lemma_flat_len_push(groups@, fresh);
                        assert forall|g1: int|
                            0 <= g1 < groups@.len() implies !same_species_spec(
                            (#[trigger] groups@[g1]@[0]).genome,
                            member.genome,
                            self.settings,
                        ) by {
                            assert(!same_species_spec(
                                (groups@[g1]@[0]).genome,
                                self.population@[i as int].genome,
                                self.settings,
                            ));
                            assert(member.genome.cview() == self.population@[
                                i as int
                            ].genome.cview());
                        }
                    }
                    groups.push(fresh);
                    proof {
                        let pi = species_partition(self.population@, self.settings, i as int);
                        let pnext = species_partition(
                            self.population@,
                            self.settings,
                            i + 1 as int,
                        );
                        assert(pnext == pi.push(seq![i as int]));
                        assert(same_org(member, self.population@[i as int]));
                        assert forall|g: int, q: int|
                            0 <= g < pnext.len() && 0 <= q < pnext[g].len() implies 0 <= (
                        #[trigger] pnext[g][q]) < i + 1 && same_org(
                            groups@[g]@[q],
                            self.population@[pnext[g][q]],
                        ) by {
                            if g == pi.len() as int {
                                assert(pnext[g] == seq![i as int]);
                                assert(pnext[g][q] == i as int);
                                assert(groups@[g] == fresh);
                                assert(groups@[g]@[q] == member);
                            } else {
                                assert(pnext[g] == pi[g]);
                                assert(groups@[g] == groups_before[g]);
                            }
                        }
                    }
                },
            }
            i = i + 1;
        }
        self.species_count = groups.len();
        groups
    }

    /// Culls the population: speciates it, then keeps a lone organism with
    /// probability one half and the top half of every larger group. A
    /// group of two or more always keeps at least one member, so species
    /// die out one organism at a time, never by whole-group deletion. The
    /// survivor count is pinned by the species partition (only the
    /// singleton coins are left open), and every survivor is one of the
    /// old organisms.
    pub fn kill(&mut self)
        requires
            old(self).wf(),
            forall|i: int|
                0 <= i < old(self).population@.len() ==> (#[trigger] old(
                    self,
                ).population@[i]).fitness is Some,
        ensures
            final(self).wf(),
            final(self).size == old(self).size,
            final(self).population@.len() <= old(self).population@.len(),
            forall|i: int|
                0 <= i < final(self).population@.len()
                    ==> (#[trigger] final(self).population@[i]).fitness is Some,
            // every survivor is one of the old organisms (as a copy)
            forall|i: int|
                0 <= i < final(self).population@.len() ==> exists|j: int|
                    0 <= j < old(self).population@.len() && same_org(
                        #[trigger] final(self).population@[i],
                        old(self).population@[j],
                    ),
            // the survivor count is pinned by the species partition: each
            // singleton group contributes zero or one organism (the coin),
            // each larger group exactly its top half, rounded down
            ({
                let p = species_partition(
                    old(self).population@,
                    old(self).settings,
                    old(self).population@.len() as int,
                );
                kept_low(p) <= final(self).population@.len() <= kept_high(p)
            }),
            !old(self).settings.reset_fitness ==> fit(final(self).best) >= fit(old(self).best),
    {
        let mut groups = self.speciate();
        let ghost pfull = species_partition(
            self.population@,
            self.settings,
            self.population@.len() as int,
        );
        let ghost best_snap = self.best;
        let ghost old_pop = old(self).population@;
        let ghost total = flat_len(groups@);
        let ghost mut prem = pfull;
        proof {
            // member provenance, from the partition correspondence
            assert forall|g: int, q: int|
                0 <= g < groups@.len() && 0 <= q < groups@[g]@.len() implies exists|j: int|
                0 <= j < old_pop.len() && same_org(#[trigger] groups@[g]@[q], old_pop[j]) by {
                let j0 = pfull[g][q];
                assert(0 <= j0 < old_pop.len() && same_org(groups@[g]@[q], old_pop[j0]));
            }
        }
        self.population = Vec::new();
        while groups.len() > 0
            invariant
                self.size == old(self).size,
                1 <= self.size <= usize::MAX / 3,
                self.settings.wf(),
                self.best == best_snap,
                self.best.genome.wf(),
                self.best.genome.outputs >= 1,
                self.best.fitness is Some,
                self.best.genome.registered_in(self.innovations),
                self.innovations.wf(),
                old_pop == old(self).population@,
                self.population@.len() + flat_len(groups@) <= total,
                total <= old(self).population@.len(),
                old(self).population@.len() <= self.size,
                prem.len() == groups@.len(),
                forall|g: int|
                    0 <= g < prem.len() ==> prem[g].len() == (#[trigger] groups@[g])@.len(),
                kept_low(pfull) - kept_low(prem) <= self.population@.len(),
                self.population@.len() <= kept_high(pfull) - kept_high(prem),
                forall|g: int, q: int|
                    0 <= g < groups@.len() && 0 <= q < groups@[g]@.len() ==> org_ok(
                        #[trigger] groups@[g]@[q],
                        self.best.genome,
                        self.innovations,
                    ) && groups@[g]@[q].fitness is Some,
                forall|g: int, q: int|
                    0 <= g < groups@.len() && 0 <= q < groups@[g]@.len() ==> exists|j: int|
                        0 <= j < old_pop.len() && same_org(#[trigger] groups@[g]@[q], old_pop[j]),
                forall|i: int|
                    0 <= i < self.population@.len() ==> org_ok(
                        #[trigger] self.population@[i],
                        self.best.genome,
                        self.innovations,
                    ) && self.population@[i].fitness is Some,
                forall|i: int|
                    0 <= i < self.population@.len() ==> exists|j: int|
                        0 <= j < old_pop.len() && same_org(
                            #[trigger] self.population@[i],
                            old_pop[j],
                        ),
            decreases groups@.len(),
    {
            let ghost groups_pre = groups@;
            let ghost prem_pre = prem;
            let group = groups.remove(0);
            proof {
                prem = prem.drop_first();
                assert(groups@ =~= groups_pre.drop_first());
                assert(flat_len(groups_pre) == group@.len() + flat_len(groups@));
                assert(prem_pre[0].len() == group@.len());
                assert(kept_low(prem_pre) == (if prem_pre[0].len() == 1 {
                    0int
                } else {
                    prem_pre[0].len() as int / 2
                }) + kept_low(prem));
                assert(kept_high(prem_pre) == (if prem_pre[0].len() == 1 {
                    1int
                } else {
                    prem_pre[0].len() as int / 2
                }) + kept_high(prem));
                // facts about the remaining groups shift down by one
                assert forall|g: int, q: int|
                    0 <= g < groups@.len() && 0 <= q < groups@[g]@.len() implies exists|j: int|
                    0 <= j < old_pop.len() && same_org(#[trigger] groups@[g]@[q], old_pop[j]) by {
                    assert(groups@[g] == groups_pre[g + 1]);
                    let j0 = choose|j: int|
                        0 <= j < old_pop.len() && same_org(groups_pre[g + 1]@[q], old_pop[j]);
                    assert(0 <= j0 < old_pop.len() && same_org(groups@[g]@[q], old_pop[j0]));
                }
                assert forall|g: int|
                    0 <= g < prem.len() implies prem[g].len() == (
                #[trigger] groups@[g])@.len() by {
                    assert(groups@[g] == groups_pre[g + 1]);
                    assert(prem[g] == prem_pre[g + 1]);
                }
            }
            if group.len() == 1 {
                if rng::micro() > 500_000 {
                    let mut solo = group;
                    match solo.pop() {
                        Some(o) => {
                            proof {
                                assert(o == groups_pre[0]@[0]);
                            }
                            self.population.push(o);
                        },
                        None => {
                            proof {
                                assert(false);
                            }
                        },
                    }
                }
            } else {
                let ghost group_view = group@;
                let mut kept = retain_top_half(group);
                let ghost kept_view = kept@;
                let ghost pop_pre = self.population@;
                self.population.append(&mut kept);
                proof {
                    assert forall|i: int|
                        0 <= i < self.population@.len() implies org_ok(
                        #[trigger] self.population@[i],
                        self.best.genome,
                        self.innovations,
                    ) && self.population@[i].fitness is Some && (exists|j: int|
                        0 <= j < old_pop.len() && same_org(
                            self.population@[i],
                            old_pop[j],
                        )) by {
                        if i < pop_pre.len() {
                            assert(self.population@[i] == pop_pre[i]);
                        } else {
                            let member = kept_view[i - pop_pre.len()];
                            assert(self.population@[i] == member);
                            assert(group_view.to_multiset().count(member) > 0);
                            assert(group_view.contains(member));
                            let w = choose|w: int|
                                0 <= w < group_view.len() && group_view[w] == member;
                            assert(org_ok(group_view[w], self.best.genome, self.innovations));
                            assert(group_view[w] == groups_pre[0]@[w]);
                            let j0 = choose|j: int|
                                0 <= j < old_pop.len() && same_org(
                                    groups_pre[0]@[w],
                                    old_pop[j],
                                );
                            assert(0 <= j0 < old_pop.len() && same_org(
                                self.population@[i],
                                old_pop[j0],
                            ));
                        }
                    }
                }
            }
        }
        proof {
            assert(kept_low(prem) == 0 && kept_high(prem) == 0);
        }
    }

    /// Compiles and runs a fresh network and task for this organism,
    /// recording the returned score; `None` stays or appears only when the
    /// task breaks the input-length protocol.
    fn evaluate_organism(org: &mut Organism, reset: bool)
        requires
            old(org).genome.wf(),
        ensures
            final(org).genome == old(org).genome,
            !(old(org).fitness is None || reset) ==> *final(org) == *old(org),
    {
        if org.fitness.is_none() || reset {
            let fresh = org.genome.clone();
            proof {
                assert(fresh.wf());
            }
            let mut net = Network::new(fresh);
            let s = net.run::<T>();
            org.fitness = s;
        }
    }

    /// Relies on rayon's `par_iter_mut().for_each`: the closure (which
    /// only calls the verified `evaluate_organism`) is applied to each
    /// organism exactly once; the vector keeps its length and order.
    #[verifier::external_body]
    fn par_evaluate(pop: &mut Vec<Organism>, reset: bool)
        requires
            forall|i: int|
                0 <= i < old(pop)@.len() ==> (#[trigger] old(pop)@[i]).genome.wf(),
        ensures
            final(pop)@.len() == old(pop)@.len(),
            forall|i: int|
                0 <= i < old(pop)@.len() ==> (#[trigger] final(pop)@[i]).genome == old(
                    pop,
                )@[i].genome,
            forall|i: int|
                0 <= i < old(pop)@.len() && !(old(pop)@[i].fitness is None || reset) ==> (
                #[trigger] final(pop)@[i]) == old(pop)@[i],
    {
        pop.par_iter_mut().for_each(|org| Self::evaluate_organism(org, reset));
    }

    /// Evaluates every organism that lacks a fitness (every organism,
    /// under `reset_fitness`), each against a fresh network and task.
    /// Returns whether the whole population now has a recorded fitness;
    /// `false` means some task broke the input-length protocol.
    fn execute(&mut self) -> (ok: bool)
        requires
            old(self).wf(),
        ensures
            final(self).wf(),
            final(self).size == old(self).size,
            final(self).population@.len() == old(self).population@.len(),
            final(self).innovations == old(self).innovations,
            final(self).best == old(self).best,
            final(self).settings == old(self).settings,
            ok ==> forall|i: int|
                0 <= i < final(self).population@.len()
                    ==> (#[trigger] final(self).population@[i]).fitness is Some,
            forall|i: int|
                0 <= i < old(self).population@.len()
                    ==> (#[trigger] final(self).population@[i]).genome
                    == old(self).population@[i].genome,
            forall|i: int|
                0 <= i < old(self).population@.len() && !(old(self).population@[i].fitness is None
                    || old(self).settings.reset_fitness)
                    ==> (#[trigger] final(self).population@[i]) == old(self).population@[i],
            (!old(self).settings.reset_fitness && (forall|i: int|
                0 <= i < old(self).population@.len()
                    ==> (#[trigger] old(self).population@[i]).fitness is Some)) ==> ok,
    {
        let reset = self.settings.reset_fitness;
        let ghost pop_pre = self.population@;
        Self::par_evaluate(&mut self.population, reset);
        proof {
            assert forall|i: int| 0 <= i < self.population@.len() implies org_ok(
                #[trigger] self.population@[i],
                self.best.genome,
                self.innovations,
            ) by {
                assert(self.population@[i].genome == pop_pre[i].genome);
                assert(org_ok(pop_pre[i], self.best.genome, self.innovations));
            }
        }
        let n = self.population.len();
        let mut ok = true;
        let mut i: usize = 0;
        while i < n
            invariant
                i <= n,
                n == self.population@.len(),
                n == pop_pre.len(),
                reset == old(self).settings.reset_fitness,
                ok ==> forall|j: int|
                    0 <= j < i ==> (#[trigger] self.population@[j]).fitness is Some,
                forall|j: int|
                    0 <= j < n && !(pop_pre[j].fitness is None || reset) ==> (
                    #[trigger] self.population@[j]) == pop_pre[j],
                (!reset && (forall|j: int|
                    0 <= j < n ==> (#[trigger] pop_pre[j]).fitness is Some)) ==> ok,
            decreases n - i,
        {
            if self.population[i].fitness.is_none() {
                proof {
                    if !reset && (forall|j: int|
                        0 <= j < n ==> (#[trigger] pop_pre[j]).fitness is Some) {
                        assert(self.population@[i as int] == pop_pre[i as int]);
                        assert(false);
                    }
                }
                ok = false;
            }
            i = i + 1;
        }
        ok
    }

    /// Refills the population to exactly the target size: survivors are
    /// shuffled, adjacent pairs produce crossover offspring up to
    /// three-quarters of the target size (the first of a pair acting as
    /// the fitter parent), and the rest of the slots are filled with
    /// mutated clones of survivors, cycling by index. If culling left no
    /// survivor at all, the population is reseeded from the best organism.
    pub fn generate(&mut self)
        requires
            old(self).wf(),
        ensures
            final(self).wf(),
            final(self).size == old(self).size,
            final(self).population@.len() == final(self).size,
            final(self).best == old(self).best,
            old(self).population@.to_multiset().subset_of(
                final(self).population@.to_multiset(),
            ),
            forall|i: int|
                old(self).population@.len() <= i < final(self).population@.len() ==> (
                #[trigger] final(self).population@[i]).fitness is None,
    {
        let ghost pop0 = self.population@;
        rng::shuffle(&mut self.population);
        proof {
            assert(old(self).population@.to_multiset().subset_of(
                self.population@.to_multiset(),
            ));
        }
        proof {
            assert forall|i: int| 0 <= i < self.population@.len() implies org_ok(
                #[trigger] self.population@[i],
                self.best.genome,
                self.innovations,
            ) by {
                assert(pop0.to_multiset().count(self.population@[i]) > 0) by {
                    assert(self.population@.to_multiset().count(self.population@[i]) > 0) by {
                        assert(self.population@.contains(self.population@[i]));
                    }
                }
                assert(pop0.contains(self.population@[i]));
                let w = choose|w: int| 0 <= w < pop0.len() && pop0[w] == self.population@[i];
                assert(org_ok(pop0[w], self.best.genome, self.innovations));
            }
        }

        let cross_cap = self.size * 3 / 4;
        let survivors = self.population.len();
        if survivors >= 2 && cross_cap > survivors {
            let todo = cross_cap - survivors;
            let mut k: usize = 0;
            while k < todo
                invariant
                    self.size == old(self).size,
                    1 <= self.size <= usize::MAX / 3,
                    self.settings.wf(),
                    self.innovations.wf(),
                    self.best.genome.wf(),
                    self.best.genome.outputs >= 1,
                    self.best.fitness is Some,
                    self.best.genome.registered_in(self.innovations),
                    survivors >= 2,
                    k <= todo,
                    todo + survivors <= self.size,
                    survivors == old(self).population@.len(),
                    self.best == old(self).best,
                    self.population@.len() == survivors + k,
                    old(self).population@.to_multiset().subset_of(
                        self.population@.to_multiset(),
                    ),
                    forall|i: int|
                        survivors <= i < self.population@.len() ==> (#[trigger] self.population@[
                            i
                        ]).fitness is None,
                    forall|i: int|
                        0 <= i < self.population@.len() ==> org_ok(
                            #[trigger] self.population@[i],
                            self.best.genome,
                            self.innovations,
                        ),
                decreases todo - k,
            {
                let child = Genome::cross(
                    &self.population[k].genome,
                    &self.population[k + 1].genome,
                );
                proof {
                    let better = self.population@[k as int].genome;
                    assert forall|i: int|
                        0 <= i < child.cview().len() implies self.innovations.table().contains_key(
                        key_of((#[trigger] child.cview()[i]).0),
                    ) by {
                        assert(child.cview()[i].0 == better.cview()[i].0);
                        assert(self.innovations.table().contains_key(key_of(better.cview()[i].0)));
                    }
                }
                let ghost before = self.population@;
                self.population.push(Organism::new(child));
                proof {
                    assert forall|x: Organism|
                        old(self).population@.to_multiset().count(x)
                            <= self.population@.to_multiset().count(x) by {
                        vstd::multiset::lemma_insert_non_decreasing(
                            before.to_multiset(),
                            self.population@.last(),
                            x,
                        );
                    }
                }
                k = k + 1;
            }
        }

        if self.population.len() == 0 {
            let mut seed_genome = self.best.genome.clone();
            proof {
                assert(seed_genome.wf());
                assert(seed_genome.registered_in(self.innovations));
            }
            let ghost reg_pre = self.innovations;
            seed_genome.mutate(&mut self.innovations, &self.settings);
            proof {
                lemma_registered_mono(self.best.genome, reg_pre, self.innovations);
            }
            let ghost before = self.population@;
            self.population.push(Organism::new(seed_genome));
            proof {
                assert forall|x: Organism|
                    old(self).population@.to_multiset().count(x)
                        <= self.population@.to_multiset().count(x) by {
                    vstd::multiset::lemma_insert_non_decreasing(
                        before.to_multiset(),
                        self.population@.last(),
                        x,
                    );
                }
            }
        }

        let filled = self.population.len();
        let todo2 = self.size - filled;
        let mut k: usize = 0;
        while k < todo2
            invariant
                self.size == old(self).size,
                1 <= self.size <= usize::MAX / 3,
                self.settings.wf(),
                self.innovations.wf(),
                self.best.genome.wf(),
                self.best.genome.outputs >= 1,
                self.best.fitness is Some,
                self.best.genome.registered_in(self.innovations),
                filled >= 1,
                k <= todo2,
                todo2 + filled == self.size,
                filled >= old(self).population@.len(),
                self.best == old(self).best,
                self.population@.len() == filled + k,
                old(self).population@.to_multiset().subset_of(
                    self.population@.to_multiset(),
                ),
                forall|i: int|
                    old(self).population@.len() <= i < self.population@.len() ==> (
                    #[trigger] self.population@[i]).fitness is None,
                forall|i: int|
                    0 <= i < self.population@.len() ==> org_ok(
                        #[trigger] self.population@[i],
                        self.best.genome,
                        self.innovations,
                    ),
            decreases todo2 - k,
        {
            let mut fresh = self.population[k].genome.clone();
            proof {
                assert(fresh.wf());
                assert(fresh.registered_in(self.innovations));
            }
            let ghost reg_pre = self.innovations;
            fresh.mutate(&mut self.innovations, &self.settings);
            proof {
                assert forall|i: int| 0 <= i < self.population@.len() implies org_ok(
                    #[trigger] self.population@[i],
                    self.best.genome,
                    self.innovations,
                ) by {
                    lemma_registered_mono(self.population@[i].genome, reg_pre, self.innovations);
                }
                lemma_registered_mono(self.best.genome, reg_pre, self.innovations);
            }
            let ghost before = self.population@;
            self.population.push(Organism::new(fresh));
            proof {
                assert forall|x: Organism|
                    old(self).population@.to_multiset().count(x)
                        <= self.population@.to_multiset().count(x) by {
                    vstd::multiset::lemma_insert_non_decreasing(
                        before.to_multiset(),
                        self.population@.last(),
                        x,
                    );
                }
            }
            k = k + 1;
        }
    }

    /// Advances exactly one generation: evaluate, cull, repopulate; then
    /// returns a network freshly compiled from the best organism's genome
    /// together with that organism's fitness. Returns `None`, leaving the
    /// generation incomplete, only if a task broke the input-length
    /// protocol during evaluation; a generation that runs no task (nothing
    /// to evaluate, no re-evaluation) always succeeds. On success the
    /// population again has exactly the configured size.
    pub fn step(&mut self) -> (r: Option<(Network, i64)>)
        requires
            old(self).wf(),
        ensures
            final(self).wf(),
            final(self).size == old(self).size,
            r is Some ==> final(self).population@.len() == final(self).size,
            r matches Some(pair) ==> final(self).best.fitness == Some(pair.1)
                && crate::network::compiled_from(pair.0, final(self).best.genome),
            // a generation that runs no task cannot fail
            (!old(self).settings.reset_fitness && (forall|i: int|
                0 <= i < old(self).population@.len()
                    ==> (#[trigger] old(self).population@[i]).fitness is Some)) ==> r is Some,
            // without re-evaluation the tracked best never falls back
            !old(self).settings.reset_fitness ==> fit(final(self).best) >= fit(old(self).best),
    {
        let ok = self.execute();
        if !ok {
            return None;
        }
        self.kill();
        self.generate();
        let cloned = self.best.genome.clone();
        proof {
            assert(cloned.wf());
        }
        let net = Network::new(cloned);
        proof {
            crate::network::lemma_compiled_from_congruent(net, cloned, self.best.genome);
        }
        let f = self.best.fitness_value();
        Some((net, f))
    }
}

} // verus!
