//! Generations: the operations of a pipeline, run in turn.

use crate::agent::Agent;
use crate::fitness::covers;
use crate::fitness::givable;
use crate::fitness::keeps_word;
use crate::fitness::Score;
use crate::fitness::ScoreProvider;
use crate::operations::all_supported;
use crate::operations::lemma_turns_weakens;
use crate::operations::Operation;
use crate::population::lemma_register_counts;
use crate::population::Population;
use crate::random::RandomGene;
use std::hash::Hash;
use vstd::prelude::*;

verus! {

/// Whether operation `step` of `operations` can turn the agents at position
/// `step` of `path` into those at the next position, with a score provider
/// that is `sure` to score and `can` give certain keys.
pub open spec fn is_step<Gene: Clone, Data>(
    operations: Seq<Operation<Gene, Data>>,
    unique: bool,
    sure: bool,
    can: spec_fn(Score) -> bool,
    path: Seq<Map<Score, Agent<Gene>>>,
    step: int,
) -> bool {
    operations[step].turns(path[step], unique, sure, can, path[step + 1])
}

/// Whether `path` lists what one generation can make of its first member:
/// the agents before the first operation, and after each operation in turn.
pub open spec fn is_generation_path<Gene: Clone, Data>(
    operations: Seq<Operation<Gene, Data>>,
    unique: bool,
    sure: bool,
    can: spec_fn(Score) -> bool,
    path: Seq<Map<Score, Agent<Gene>>>,
) -> bool {
    &&& path.len() == operations.len() + 1
    &&& forall|step: int|
        0 <= step < operations.len() ==> #[trigger] is_step(
            operations,
            unique,
            sure,
            can,
            path,
            step,
        )
}

/// Whether one generation, the operations applied once in their order, can
/// turn the agents `before` into `after`.
pub open spec fn is_generation<Gene: Clone, Data>(
    operations: Seq<Operation<Gene, Data>>,
    unique: bool,
    sure: bool,
    can: spec_fn(Score) -> bool,
    before: Map<Score, Agent<Gene>>,
    after: Map<Score, Agent<Gene>>,
) -> bool {
    exists|path: Seq<Map<Score, Agent<Gene>>>|
        #[trigger] is_generation_path(operations, unique, sure, can, path) && path.first()
            == before && path.last() == after
}

/// Whether `milestones` lists what `iterations` generations can make of
/// its first member: the agents at the start, and after each generation.
pub open spec fn is_evolution<Gene: Clone, Data>(
    operations: Seq<Operation<Gene, Data>>,
    unique: bool,
    sure: bool,
    can: spec_fn(Score) -> bool,
    iterations: nat,
    milestones: Seq<Map<Score, Agent<Gene>>>,
) -> bool {
    &&& milestones.len() == iterations + 1
    &&& forall|round: int|
        0 <= round < iterations ==> is_generation(
            operations,
            unique,
            sure,
            can,
            #[trigger] milestones[round],
            milestones[round + 1],
        )
}

/// Whether `iterations` generations, each the output of the one before, can
/// turn the agents `before` into `after`, with a score provider that is
/// `sure` to score and `can` give certain keys: where it is sure, every
/// child of a mutate or crossover step is filed, and every key under which a
/// child is filed is one that it can give.
pub open spec fn evolves<Gene: Clone, Data>(
    operations: Seq<Operation<Gene, Data>>,
    unique: bool,
    sure: bool,
    can: spec_fn(Score) -> bool,
    iterations: nat,
    before: Map<Score, Agent<Gene>>,
    after: Map<Score, Agent<Gene>>,
) -> bool {
    exists|milestones: Seq<Map<Score, Agent<Gene>>>|
        #[trigger] is_evolution(operations, unique, sure, can, iterations, milestones)
            && milestones.first() == before && milestones.last() == after
}

/// What one generation can do with a provider that says more of itself it
/// can do with one that says less.
pub proof fn lemma_generation_weakens<Gene: Clone, Data>(
    operations: Seq<Operation<Gene, Data>>,
    unique: bool,
    sure: bool,
    can: spec_fn(Score) -> bool,
    lesser_sure: bool,
    lesser_can: spec_fn(Score) -> bool,
    before: Map<Score, Agent<Gene>>,
    after: Map<Score, Agent<Gene>>,
)
    requires
        is_generation(operations, unique, sure, can, before, after),
        covers(sure, can, lesser_sure, lesser_can),
    ensures
        is_generation(operations, unique, lesser_sure, lesser_can, before, after),
{
    let path = choose|path: Seq<Map<Score, Agent<Gene>>>|
        #[trigger] is_generation_path(operations, unique, sure, can, path) && path.first()
            == before && path.last() == after;
    assert forall|step: int| 0 <= step < operations.len() implies #[trigger] is_step(
        operations,
        unique,
        lesser_sure,
        lesser_can,
        path,
        step,
    ) by {
        assert(is_step(operations, unique, sure, can, path, step));
        lemma_turns_weakens(
            operations[step],
            path[step],
            unique,
            sure,
            can,
            lesser_sure,
            lesser_can,
            path[step + 1],
        );
    }
    assert(is_generation_path(operations, unique, lesser_sure, lesser_can, path));
}

/// What generations can do with a provider that says more of itself they
/// can do with one that says less.
pub proof fn lemma_evolves_weakens<Gene: Clone, Data>(
    operations: Seq<Operation<Gene, Data>>,
    unique: bool,
    sure: bool,
    can: spec_fn(Score) -> bool,
    lesser_sure: bool,
    lesser_can: spec_fn(Score) -> bool,
    iterations: nat,
    before: Map<Score, Agent<Gene>>,
    after: Map<Score, Agent<Gene>>,
)
    requires
        evolves(operations, unique, sure, can, iterations, before, after),
        covers(sure, can, lesser_sure, lesser_can),
    ensures
        evolves(operations, unique, lesser_sure, lesser_can, iterations, before, after),
{
    let milestones = choose|milestones: Seq<Map<Score, Agent<Gene>>>|
        #[trigger] is_evolution(operations, unique, sure, can, iterations, milestones)
            && milestones.first() == before && milestones.last() == after;
    assert forall|round: int| 0 <= round < iterations implies is_generation(
        operations,
        unique,
        lesser_sure,
        lesser_can,
        #[trigger] milestones[round],
        milestones[round + 1],
    ) by {
        lemma_generation_weakens(
            operations,
            unique,
            sure,
            can,
            lesser_sure,
            lesser_can,
            milestones[round],
            milestones[round + 1],
        );
    }
    assert(is_evolution(operations, unique, lesser_sure, lesser_can, iterations, milestones));
}

/// Runs the operations on `population`, in their order, `iterations` times
/// over.
pub fn run_iterations<Gene, Data, SP>(
    population: Population<Gene>,
    iterations: usize,
    data: &Data,
    operations: &Vec<Operation<Gene, Data>>,
    score_provider: &mut SP,
) -> (result: Population<Gene>) where Gene: RandomGene + Clone + Hash, SP: ScoreProvider<Gene, Data>
    requires
        population.well_formed(),
        all_supported(operations@),
    ensures
        result.well_formed(),
        result.unique() == population.unique(),
        result.unique() ==> result.register().len() == result@.len(),
        evolves(
            operations@,
            population.unique(),
            old(score_provider).always_scores(),
            givable(*old(score_provider)),
            iterations as nat,
            population@,
            result@,
        ),
        iterations == 0 || operations@.len() == 0 ==> result@ == population@,
        iterations == 0 || operations@.len() == 0 ==> *final(score_provider) == *old(score_provider),
        keeps_word(*old(score_provider), *final(score_provider)),
{
    let mut population = population;
    let ghost unique = population.unique();
    let ghost sure = old(score_provider).always_scores();
    let ghost can = givable(*old(score_provider));
    let ghost initial = population@;
    let ghost mut milestones: Seq<Map<Score, Agent<Gene>>> = seq![population@];
    let mut round: usize = 0;
    proof {
        lemma_register_counts(population);
    }
    while round < iterations
        invariant
            round <= iterations,
            population.well_formed(),
            population.unique() == unique,
            population.unique() ==> population.register().len() == population@.len(),
            all_supported(operations@),
            sure == old(score_provider).always_scores(),
            can == givable(*old(score_provider)),
            is_evolution(operations@, unique, sure, can, round as nat, milestones),
            milestones.first() == initial,
            milestones.last() == population@,
            operations@.len() == 0 ==> population@ == initial,
            round == 0 || operations@.len() == 0 ==> *score_provider == *old(score_provider),
            keeps_word(*old(score_provider), *score_provider),
        decreases iterations - round,
    {
        let ghost mut path: Seq<Map<Score, Agent<Gene>>> = seq![population@];
        let ghost start = population@;
        let mut step: usize = 0;
        while step < operations.len()
            invariant
                step <= operations@.len(),
                population.well_formed(),
                population.unique() == unique,
                population.unique() ==> population.register().len() == population@.len(),
                all_supported(operations@),
                sure == old(score_provider).always_scores(),
                can == givable(*old(score_provider)),
                step == 0 && round == 0 || operations@.len() == 0 ==> *score_provider == *old(
                    score_provider,
                ),
                keeps_word(*old(score_provider), *score_provider),
                path.len() == step + 1,
                path.first() == start,
                path.last() == population@,
                forall|done: int|
                    0 <= done < step ==> #[trigger] is_step(
                        operations@,
                        unique,
                        sure,
                        can,
                        path,
                        done,
                    ),
            decreases operations@.len() - step,
        {
            let ghost before = population@;
            let ghost sure_now = score_provider.always_scores();
            let ghost can_now = givable(*score_provider);
            population = operations[step].run(population, data, score_provider);
            proof {
                assert(covers(sure_now, can_now, sure, can));
                lemma_turns_weakens(
                    operations@[step as int],
                    before,
                    unique,
                    sure_now,
                    can_now,
                    sure,
                    can,
                    population@,
                );
                let longer = path.push(population@);
                assert forall|done: int| 0 <= done < step + 1 implies #[trigger] is_step(
                    operations@,
                    unique,
                    sure,
                    can,
                    longer,
                    done,
                ) by {
                    if done < step {
                        assert(is_step(operations@, unique, sure, can, path, done));
                        assert(longer[done] == path[done]);
                        assert(longer[done + 1] == path[done + 1]);
                    } else {
                        assert(longer[done] == before);
                    }
                }
                path = longer;
            }
            step = step + 1;
        }
        proof {
            assert(is_generation_path(operations@, unique, sure, can, path));
            assert(is_generation(operations@, unique, sure, can, start, population@));
            let longer = milestones.push(population@);
            assert forall|earlier: int| 0 <= earlier < round + 1 implies is_generation(
                operations@,
                unique,
                sure,
                can,
                #[trigger] longer[earlier],
                longer[earlier + 1],
            ) by {
                if earlier < round {
                    assert(is_generation(
                        operations@,
                        unique,
                        sure,
                        can,
                        milestones[earlier],
                        milestones[earlier + 1],
                    ));
                    assert(longer[earlier] == milestones[earlier]);
                    assert(longer[earlier + 1] == milestones[earlier + 1]);
                } else {
                    assert(longer[earlier] == start);
                }
            }
            milestones = longer;
        }
        round = round + 1;
    }
    assert(is_evolution(operations@, unique, sure, can, iterations as nat, milestones));
    population
}

} // verus!
