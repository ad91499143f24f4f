//! Hierarchies: many small populations, evolved apart and merged level by
//! level into one.
//!
//! A branch of no levels is one fresh population, evolved. A branch of more
//! levels is made of as many branches of one level less as a level has
//! sub-populations: their agents are pooled in one population, which is
//! evolved and then loses its lowest agents.

use crate::agent::Agent;
use crate::evolution::evolves;
use crate::evolution::lemma_evolves_weakens;
use crate::evolution::run_iterations;
use crate::fitness::covers;
use crate::fitness::givable;
use crate::fitness::keeps_word;
use crate::fitness::Score;
use crate::fitness::ScoreError;
use crate::fitness::ScoreProvider;
use crate::operations::all_supported;
use crate::operations::cull_lowest_agents;
use crate::operations::culled;
use crate::operations::selected_count;
use crate::operations::Operation;
use crate::operations::Proportion;
use crate::operations::SelectionType;
use crate::population::is_seed;
use crate::population::lemma_seed_weakens;
use crate::population::merged;
use crate::population::Population;
use crate::random::RandomGene;
use crate::ranking::ranking_of;
use std::hash::Hash;
use vstd::prelude::*;

verus! {

/// How a hierarchy is laid out and run.
#[derive(Clone, Copy)]
pub struct Layout {
    /// The number of branches that are merged into one at each level; at
    /// least 1.
    pub sub_populations_per_level: usize,
    /// The number of generations for which a population is evolved, each
    /// time that this is done.
    pub iterations_on_each_population: usize,
    /// The number of agents drawn for a fresh population.
    pub population_size: usize,
    /// The number of genes of a fresh agent.
    pub number_of_genes: usize,
}

/// The agents of `parts`, pooled: each part is offered in turn, its entries
/// in ascending order of their keys, to a population that admits any genome.
/// An agent that comes under a key that is taken replaces whoever holds it.
pub open spec fn pooled<Gene>(parts: Seq<Map<Score, Agent<Gene>>>) -> Map<Score, Agent<Gene>>
    decreases parts.len(),
{
    if parts.len() == 0 {
        Map::empty()
    } else {
        merged(pooled(parts.drop_last()), false, parts.last(), ranking_of(parts.last().dom()))
    }
}

/// The share of its agents that a merged population loses: one part of as
/// many as a level has sub-populations.
pub open spec fn loss(layout: Layout) -> Proportion {
    Proportion::ratio(1, layout.sub_populations_per_level as u64)
}

/// Whether `result` can come of merging `parts`, with a score provider that
/// is `sure` to score and `can` give certain keys: their pool is evolved,
/// and what has grown loses its lowest agents, one at least.
pub open spec fn is_merger<Gene: Clone, Data>(
    parts: Seq<Map<Score, Agent<Gene>>>,
    layout: Layout,
    operations: Seq<Operation<Gene, Data>>,
    sure: bool,
    can: spec_fn(Score) -> bool,
    result: Map<Score, Agent<Gene>>,
) -> bool {
    exists|grown: Map<Score, Agent<Gene>>|
        {
            &&& #[trigger] evolves(
                operations,
                false,
                sure,
                can,
                layout.iterations_on_each_population as nat,
                pooled(parts),
                grown,
            )
            &&& result == culled(
                grown,
                SelectionType::LowestScore,
                selected_count(grown.len(), loss(layout), 1),
            )
        }
}

/// Whether `result` can come of a fresh population, evolved, with a score
/// provider that is `sure` to score and `can` give certain keys.
pub open spec fn is_leaf<Gene: Clone, Data>(
    layout: Layout,
    operations: Seq<Operation<Gene, Data>>,
    sure: bool,
    can: spec_fn(Score) -> bool,
    result: Map<Score, Agent<Gene>>,
) -> bool {
    exists|
        draws: Seq<Agent<Gene>>,
        answers: Seq<Result<Score, ScoreError>>,
        seed: Map<Score, Agent<Gene>>,
    |
        {
            &&& #[trigger] is_seed(
                draws,
                answers,
                layout.population_size as nat,
                layout.number_of_genes as nat,
                false,
                sure,
                can,
                seed,
            )
            &&& evolves(
                operations,
                false,
                sure,
                can,
                layout.iterations_on_each_population as nat,
                seed,
                result,
            )
        }
}

/// Whether `result` can be a branch of `levels` levels: a leaf where there
/// is no level, else the merger of as many branches of one level less as a
/// level has sub-populations.
pub open spec fn is_branch<Gene: Clone, Data>(
    levels: nat,
    layout: Layout,
    operations: Seq<Operation<Gene, Data>>,
    sure: bool,
    can: spec_fn(Score) -> bool,
    result: Map<Score, Agent<Gene>>,
) -> bool
    decreases levels,
{
    if levels == 0 {
        is_leaf(layout, operations, sure, can, result)
    } else {
        exists|parts: Seq<Map<Score, Agent<Gene>>>|
            {
                &&& parts.len() == layout.sub_populations_per_level
                &&& forall|i: int|
                    0 <= i < parts.len() ==> is_branch(
                        (levels - 1) as nat,
                        layout,
                        operations,
                        sure,
                        can,
                        #[trigger] parts[i],
                    )
                &&& #[trigger] is_merger(parts, layout, operations, sure, can, result)
            }
    }
}

/// Whether every one of `parts` can be a branch of `levels` levels.
pub open spec fn are_branches<Gene: Clone, Data>(
    levels: nat,
    layout: Layout,
    operations: Seq<Operation<Gene, Data>>,
    sure: bool,
    can: spec_fn(Score) -> bool,
    parts: Seq<Map<Score, Agent<Gene>>>,
) -> bool {
    forall|i: int|
        0 <= i < parts.len() ==> is_branch(
            levels,
            layout,
            operations,
            sure,
            can,
            #[trigger] parts[i],
        )
}

/// What can be a branch with a provider that says more of itself can be one
/// with a provider that says less.
pub proof fn lemma_branch_weakens<Gene: Clone, Data>(
    levels: nat,
    layout: Layout,
    operations: Seq<Operation<Gene, Data>>,
    sure: bool,
    can: spec_fn(Score) -> bool,
    lesser_sure: bool,
    lesser_can: spec_fn(Score) -> bool,
    result: Map<Score, Agent<Gene>>,
)
    requires
        is_branch(levels, layout, operations, sure, can, result),
        covers(sure, can, lesser_sure, lesser_can),
    ensures
        is_branch(levels, layout, operations, lesser_sure, lesser_can, result),
    decreases levels,
{
    let iterations = layout.iterations_on_each_population as nat;
    if levels == 0 {
        let (draws, answers, seed) = choose|
            draws: Seq<Agent<Gene>>,
            answers: Seq<Result<Score, ScoreError>>,
            seed: Map<Score, Agent<Gene>>,
        |
            {
                &&& #[trigger] is_seed(
                    draws,
                    answers,
                    layout.population_size as nat,
                    layout.number_of_genes as nat,
                    false,
                    sure,
                    can,
                    seed,
                )
                &&& evolves(operations, false, sure, can, iterations, seed, result)
            };
        lemma_seed_weakens(
            draws,
            answers,
            layout.population_size as nat,
            layout.number_of_genes as nat,
            false,
            sure,
            can,
            lesser_sure,
            lesser_can,
            seed,
        );
        lemma_evolves_weakens(
            operations,
            false,
            sure,
            can,
            lesser_sure,
            lesser_can,
            iterations,
            seed,
            result,
        );
    } else {
        let parts = choose|parts: Seq<Map<Score, Agent<Gene>>>|
            {
                &&& parts.len() == layout.sub_populations_per_level
                &&& forall|i: int|
                    0 <= i < parts.len() ==> is_branch(
                        (levels - 1) as nat,
                        layout,
                        operations,
                        sure,
                        can,
                        #[trigger] parts[i],
                    )
                &&& #[trigger] is_merger(parts, layout, operations, sure, can, result)
            };
        assert forall|i: int| 0 <= i < parts.len() implies is_branch(
            (levels - 1) as nat,
            layout,
            operations,
            lesser_sure,
            lesser_can,
            #[trigger] parts[i],
        ) by {
            lemma_branch_weakens(
                (levels - 1) as nat,
                layout,
                operations,
                sure,
                can,
                lesser_sure,
                lesser_can,
                parts[i],
            );
        }
        let grown = choose|grown: Map<Score, Agent<Gene>>|
            {
                &&& #[trigger] evolves(operations, false, sure, can, iterations, pooled(parts), grown)
                &&& result == culled(
                    grown,
                    SelectionType::LowestScore,
                    selected_count(grown.len(), loss(layout), 1),
                )
            };
        lemma_evolves_weakens(
            operations,
            false,
            sure,
            can,
            lesser_sure,
            lesser_can,
            iterations,
            pooled(parts),
            grown,
        );
        assert(is_merger(parts, layout, operations, lesser_sure, lesser_can, result));
    }
}

/// Merges populations into one: pools their agents, evolves the pool, and
/// culls its lowest agents. A cull that counts every agent removes none, so
/// where a level has one sub-population the pool loses nothing.
pub fn merge_batch<Gene, Data, SP>(
    populations: Vec<Population<Gene>>,
    layout: Layout,
    data: &Data,
    operations: &Vec<Operation<Gene, Data>>,
    score_provider: &mut SP,
) -> (result: Population<Gene>) where Gene: RandomGene + Clone + Hash, SP: ScoreProvider<Gene, Data>
    requires
        layout.sub_populations_per_level >= 1,
        all_supported(operations@),
    ensures
        result.well_formed(),
        !result.unique(),
        is_merger(
            populations@.map_values(|part: Population<Gene>| part@),
            layout,
            operations@,
            old(score_provider).always_scores(),
            givable(*old(score_provider)),
            result@,
        ),
        keeps_word(*old(score_provider), *final(score_provider)),
{
    let ghost parts = populations@.map_values(|part: Population<Gene>| part@);
    let mut pool: Population<Gene> = Population::new_empty(false);
    assert(parts.take(0) =~= Seq::<Map<Score, Agent<Gene>>>::empty());
    let ghost all = populations@;
    for population in walk: populations
        invariant
            walk.seq() == all,
            parts == all.map_values(|part: Population<Gene>| part@),
            pool.well_formed(),
            !pool.unique(),
            pool@ == pooled(parts.take(walk.index() as int)),
    {
        proof {
            let done = parts.take(walk.index() + 1);
            assert(done.drop_last() =~= parts.take(walk.index() as int));
            assert(done.last() == population@);
        }
        pool.set_agents(population.into_agents());
    }
    assert(parts.take(parts.len() as int) =~= parts);
    let grown = run_iterations(
        pool,
        layout.iterations_on_each_population,
        data,
        operations,
        score_provider,
    );
    let ghost grown_agents = grown@;
    let rate = match Proportion::new(1, layout.sub_populations_per_level as u64) {
        Some(rate) => rate,
        None => Proportion::from_percent(0),
    };
    let result = cull_lowest_agents(grown, rate, 1);
    assert(evolves(
        operations@,
        false,
        old(score_provider).always_scores(),
        givable(*old(score_provider)),
        layout.iterations_on_each_population as nat,
        pooled(parts),
        grown_agents,
    ));
    result
}

/// Breeds a hierarchy of `levels` levels and returns the one population
/// that is left at the top.
pub fn evolve_hierarchy<Gene, Data, SP>(
    levels: usize,
    layout: Layout,
    data: &Data,
    operations: &Vec<Operation<Gene, Data>>,
    score_provider: &mut SP,
) -> (result: Population<Gene>) where Gene: RandomGene + Clone + Hash, SP: ScoreProvider<Gene, Data>
    requires
        layout.sub_populations_per_level >= 1,
        all_supported(operations@),
    ensures
        result.well_formed(),
        !result.unique(),
        is_branch(
            levels as nat,
            layout,
            operations@,
            old(score_provider).always_scores(),
            givable(*old(score_provider)),
            result@,
        ),
        keeps_word(*old(score_provider), *final(score_provider)),
    decreases levels,
{
    let ghost sure = old(score_provider).always_scores();
    let ghost can = givable(*old(score_provider));
    let ghost iterations = layout.iterations_on_each_population as nat;
    if levels == 0 {
        let seed = Population::new(
            layout.population_size,
            layout.number_of_genes,
            false,
            data,
            score_provider,
        );
        let ghost seeded = seed@;
        let ghost sure_now = score_provider.always_scores();
        let ghost can_now = givable(*score_provider);
        let result = run_iterations(
            seed,
            layout.iterations_on_each_population,
            data,
            operations,
            score_provider,
        );
        proof {
            let (draws, answers) = choose|
                draws: Seq<Agent<Gene>>,
                answers: Seq<Result<Score, ScoreError>>,
            | #[trigger]
                is_seed(
                    draws,
                    answers,
                    layout.population_size as nat,
                    layout.number_of_genes as nat,
                    false,
                    sure,
                    can,
                    seeded,
                );
            assert(covers(sure_now, can_now, sure, can));
            lemma_evolves_weakens(
                operations@,
                false,
                sure_now,
                can_now,
                sure,
                can,
                iterations,
                seeded,
                result@,
            );
            assert(is_seed(
                draws,
                answers,
                layout.population_size as nat,
                layout.number_of_genes as nat,
                false,
                sure,
                can,
                seeded,
            ) && evolves(operations@, false, sure, can, iterations, seeded, result@));
            assert(is_leaf(layout, operations@, sure, can, result@));
        }
        result
    } else {
        let mut batch: Vec<Population<Gene>> = Vec::new();
        let mut bred: usize = 0;
        while bred < layout.sub_populations_per_level
            invariant
                bred <= layout.sub_populations_per_level,
                layout.sub_populations_per_level >= 1,
                all_supported(operations@),
                levels > 0,
                batch@.len() == bred,
                sure == old(score_provider).always_scores(),
                can == givable(*old(score_provider)),
                keeps_word(*old(score_provider), *score_provider),
                are_branches(
                    (levels - 1) as nat,
                    layout,
                    operations@,
                    sure,
                    can,
                    batch@.map_values(|part: Population<Gene>| part@),
                ),
            decreases layout.sub_populations_per_level - bred,
        {
            let ghost sure_now = score_provider.always_scores();
            let ghost can_now = givable(*score_provider);
            let branch = evolve_hierarchy(levels - 1, layout, data, operations, score_provider);
            let ghost before = batch@.map_values(|part: Population<Gene>| part@);
            proof {
                assert(covers(sure_now, can_now, sure, can));
                lemma_branch_weakens(
                    (levels - 1) as nat,
                    layout,
                    operations@,
                    sure_now,
                    can_now,
                    sure,
                    can,
                    branch@,
                );
            }
            batch.push(branch);
            proof {
                let after = batch@.map_values(|part: Population<Gene>| part@);
                assert forall|i: int| 0 <= i < after.len() implies is_branch(
                    (levels - 1) as nat,
                    layout,
                    operations@,
                    sure,
                    can,
                    #[trigger] after[i],
                ) by {
                    if i < before.len() {
                        assert(after[i] == before[i]);
                    }
                }
            }
            bred = bred + 1;
        }
        let ghost parts = batch@.map_values(|part: Population<Gene>| part@);
        let ghost sure_now = score_provider.always_scores();
        let ghost can_now = givable(*score_provider);
        let result = merge_batch(batch, layout, data, operations, score_provider);
        proof {
            assert(covers(sure_now, can_now, sure, can));
            let grown = choose|grown: Map<Score, Agent<Gene>>|
                {
                    &&& #[trigger] evolves(
                        operations@,
                        false,
                        sure_now,
                        can_now,
                        iterations,
                        pooled(parts),
                        grown,
                    )
                    &&& result@ == culled(
                        grown,
                        SelectionType::LowestScore,
                        selected_count(grown.len(), loss(layout), 1),
                    )
                };
            lemma_evolves_weakens(
                operations@,
                false,
                sure_now,
                can_now,
                sure,
                can,
                iterations,
                pooled(parts),
                grown,
            );
            assert(is_merger(parts, layout, operations@, sure, can, result@));
            assert(parts.len() == layout.sub_populations_per_level && are_branches(
                (levels - 1) as nat,
                layout,
                operations@,
                sure,
                can,
                parts,
            ) && is_merger(parts, layout, operations@, sure, can, result@));
            assert(is_branch(levels as nat, layout, operations@, sure, can, result@));
        }
        result
    }
}

} // verus!
