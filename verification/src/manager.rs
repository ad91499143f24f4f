//! The manager: a main population evolved towards a goal, fed by workers.
//!
//! A manager decides; it starts no thread and waits for nothing. Whoever
//! drives it starts the workers that it asks for, hands it what they send
//! back, and goes on until it says stop:
//!
//! 1. `start` seeds the main population and says whether to go on;
//! 2. for each cycle, the driver starts as many workers as it was told
//!    (each runs `breed_candidates` with its own copies), calls `evolve`,
//!    hands every snapshot that has arrived to `absorb`, and calls
//!    `finish_cycle`, which says whether to go on.

use crate::agent::Agent;
use crate::evolution::evolves;
use crate::evolution::lemma_evolves_weakens;
use crate::evolution::run_iterations;
use crate::fitness::covers;
use crate::fitness::givable;
use crate::fitness::keeps_word;
use crate::fitness::is_givable;
use crate::fitness::never_fails;
use crate::fitness::GeneralScoreProvider;
use crate::fitness::Score;
use crate::fitness::ScoreError;
use crate::fitness::ScoreProvider;
use crate::operations::all_supported;
use crate::operations::cull_lowest_agents;
use crate::operations::culled;
use crate::operations::selected_count;
use crate::operations::Operation;
use crate::operations::OperationType;
use crate::operations::Proportion;
use crate::operations::Selection;
use crate::operations::SelectionType;
use crate::population::is_seed;
use crate::population::merged;
use crate::population::Population;
use crate::random::RandomGene;
use crate::ranking::ranking_of;
use std::collections::BTreeMap;
use std::hash::Hash;
use vstd::prelude::*;

verus! {

/// Where a manager stands.
#[derive(Clone, Copy)]
pub enum Phase {
    /// Not started yet.
    Idle,
    /// Evolving towards the goal.
    Running,
    /// The best rank seen has reached the goal.
    Converged,
}

/// What the driver of a manager is to do next.
#[derive(Clone, Copy)]
pub enum Directive {
    /// Start this many workers, then run one cycle.
    Cycle(u8),
    /// The goal is reached: stop.
    Stop,
}

/// The number of workers that a pool of `live` workers lacks of `budget`.
pub open spec fn missing_workers(live: u8, budget: u8) -> u8 {
    if live < budget {
        (budget - live) as u8
    } else {
        0
    }
}

/// Whether a manager whose best rank is `best`, with `live` workers of a
/// budget of `budget`, decides thus on `goal`: where the goal is reached it
/// has converged and says stop; else it runs on, asks for the workers that
/// the pool lacks, and counts them as live.
pub open spec fn is_decision(
    best: Score,
    goal: Score,
    live: u8,
    budget: u8,
    phase: Phase,
    live_after: u8,
    directive: Directive,
) -> bool {
    if best >= goal {
        &&& directive is Stop
        &&& phase is Converged
        &&& live_after == live
    } else {
        &&& directive == Directive::Cycle(missing_workers(live, budget))
        &&& phase is Running
        &&& live_after == live + missing_workers(live, budget)
    }
}

/// A goal of 0 is reached before anything is done: the manager has
/// converged and says stop, whatever its best rank, and asks for no worker.
pub proof fn lemma_goal_of_zero(
    best: Score,
    live: u8,
    budget: u8,
    phase: Phase,
    live_after: u8,
    directive: Directive,
)
    requires
        is_decision(best, 0, live, budget, phase, live_after, directive),
    ensures
        directive is Stop,
        phase is Converged,
        live_after == live,
{
}

/// Whether `operation` does `kind` to a selection of `percent` in a hundred
/// agents, one at least, chosen by `choice`, on one thread.
pub open spec fn is_usual_step<Gene, Data>(
    operation: Operation<Gene, Data>,
    kind: OperationType,
    choice: SelectionType,
    percent: u64,
) -> bool {
    &&& operation.kind() == kind
    &&& operation.chooses().kind() == choice
    &&& operation.chooses().rate() == Proportion::percent(percent)
    &&& operation.chooses().minimum() == 1
    &&& operation.threads() == 1
}

/// Whether `pipeline` is the one that a new manager has: it mutates a tenth
/// of the agents, drawn at random; crosses the highest fifth; crosses a
/// fifth, drawn at random; and culls the lowest tenth.
pub open spec fn is_usual_pipeline<Gene, Data>(pipeline: Seq<Operation<Gene, Data>>) -> bool {
    &&& pipeline.len() == 4
    &&& is_usual_step(pipeline[0], OperationType::Mutate, SelectionType::RandomAny, 10)
    &&& is_usual_step(pipeline[1], OperationType::Crossover, SelectionType::HighestScore, 20)
    &&& is_usual_step(pipeline[2], OperationType::Crossover, SelectionType::RandomAny, 20)
    &&& is_usual_step(pipeline[3], OperationType::Cull, SelectionType::LowestScore, 10)
}

/// A long-running search: a main population, the means to evolve it, and a
/// count of the workers that breed candidates for it.
pub struct Manager<Gene, Data, SP> {
    main_population: Population<Gene>,
    data: Data,
    number_of_genes: usize,
    strict_gene_length: bool,
    initial_population_size: usize,
    current_highest: Score,
    number_of_child_threads: u8,
    max_child_threads: u8,
    operations: Vec<Operation<Gene, Data>>,
    iterations_per_cycle: usize,
    score_provider: SP,
    phase: Phase,
}

impl<Gene, Data, SP> Manager<Gene, Data, SP> {
    /// The main population.
    pub closed spec fn population(&self) -> Population<Gene> {
        self.main_population
    }

    /// Where the manager stands.
    pub closed spec fn phase(&self) -> Phase {
        self.phase
    }

    /// The best rank seen at the end of a cycle so far.
    pub closed spec fn best_rank(&self) -> Score {
        self.current_highest
    }

    /// The number of workers that were started and have not been heard of.
    pub closed spec fn live_workers(&self) -> u8 {
        self.number_of_child_threads
    }

    /// The number of workers to keep busy.
    pub closed spec fn worker_budget(&self) -> u8 {
        self.max_child_threads
    }

    /// The operations of one generation.
    pub closed spec fn pipeline(&self) -> Seq<Operation<Gene, Data>> {
        self.operations@
    }

    /// The number of genes of a fresh agent.
    pub closed spec fn genome_length(&self) -> usize {
        self.number_of_genes
    }

    /// Whether genomes are to keep their length. No part of the engine
    /// changes the length of a genome, so the flag is only kept.
    pub closed spec fn strict_length(&self) -> bool {
        self.strict_gene_length
    }

    /// The number of agents drawn for a fresh population.
    pub closed spec fn seed_size(&self) -> usize {
        self.initial_population_size
    }

    /// The number of generations in one cycle.
    pub closed spec fn cycle_length(&self) -> usize {
        self.iterations_per_cycle
    }

    /// The score provider of the main population.
    pub closed spec fn provider(&self) -> SP {
        self.score_provider
    }

    /// The data that every fitness evaluation is given. It is given to the
    /// manager when it is made and never changes.
    pub closed spec fn shared_data(&self) -> Data {
        self.data
    }

    /// The invariant of a manager: the main population is well formed and
    /// admits any genome, and every operation of the pipeline can be run.
    pub open spec fn well_formed(&self) -> bool {
        &&& self.population().well_formed()
        &&& !self.population().unique()
        &&& all_supported(self.pipeline())
    }

    /// Whether `other` stands where this manager stands: with the same main
    /// population, phase, best rank, workers, score provider and data.
    pub open spec fn same_state(&self, other: &Self) -> bool {
        &&& other.population() == self.population()
        &&& other.phase() == self.phase()
        &&& other.best_rank() == self.best_rank()
        &&& other.live_workers() == self.live_workers()
        &&& other.provider() == self.provider()
        &&& other.shared_data() == self.shared_data()
    }

    /// Whether `other` differs from this manager in nothing that a host
    /// gives or sets.
    pub open spec fn same_settings(&self, other: &Self) -> bool {
        &&& other.shared_data() == self.shared_data()
        &&& other.worker_budget() == self.worker_budget()
        &&& other.pipeline() == self.pipeline()
        &&& other.genome_length() == self.genome_length()
        &&& other.strict_length() == self.strict_length()
        &&& other.seed_size() == self.seed_size()
        &&& other.cycle_length() == self.cycle_length()
    }

    /// Sets the number of genes of a fresh agent, and whether genomes are to
    /// keep their length.
    pub fn set_number_of_genes(&mut self, number: usize, strict: bool)
        ensures
            final(self).genome_length() == number,
            final(self).strict_length() == strict,
            old(self).same_state(final(self)),
            final(self).worker_budget() == old(self).worker_budget(),
            final(self).pipeline() == old(self).pipeline(),
            final(self).seed_size() == old(self).seed_size(),
            final(self).cycle_length() == old(self).cycle_length(),
    {
        self.number_of_genes = number;
        self.strict_gene_length = strict;
    }

    /// Sets the number of agents drawn for a fresh population.
    pub fn set_initial_population_size(&mut self, size: usize)
        ensures
            final(self).seed_size() == size,
            old(self).same_state(final(self)),
            final(self).worker_budget() == old(self).worker_budget(),
            final(self).pipeline() == old(self).pipeline(),
            final(self).genome_length() == old(self).genome_length(),
            final(self).strict_length() == old(self).strict_length(),
            final(self).cycle_length() == old(self).cycle_length(),
    {
        self.initial_population_size = size;
    }

    /// Replaces the pipeline. Every operation must be one that can be run.
    pub fn set_operations(&mut self, operations: Vec<Operation<Gene, Data>>)
        requires
            all_supported(operations@),
        ensures
            final(self).pipeline() == operations@,
            old(self).same_state(final(self)),
            final(self).worker_budget() == old(self).worker_budget(),
            final(self).genome_length() == old(self).genome_length(),
            final(self).strict_length() == old(self).strict_length(),
            final(self).seed_size() == old(self).seed_size(),
            final(self).cycle_length() == old(self).cycle_length(),
    {
        self.operations = operations;
    }

    /// Sets the number of workers to keep busy.
    pub fn set_max_child_threads(&mut self, max_number: u8)
        ensures
            final(self).worker_budget() == max_number,
            old(self).same_state(final(self)),
            final(self).pipeline() == old(self).pipeline(),
            final(self).genome_length() == old(self).genome_length(),
            final(self).strict_length() == old(self).strict_length(),
            final(self).seed_size() == old(self).seed_size(),
            final(self).cycle_length() == old(self).cycle_length(),
    {
        self.max_child_threads = max_number;
    }

    /// Sets the number of generations in one cycle.
    pub fn set_iterations_per_cycle(&mut self, number: usize)
        ensures
            final(self).cycle_length() == number,
            old(self).same_state(final(self)),
            final(self).worker_budget() == old(self).worker_budget(),
            final(self).pipeline() == old(self).pipeline(),
            final(self).genome_length() == old(self).genome_length(),
            final(self).strict_length() == old(self).strict_length(),
            final(self).seed_size() == old(self).seed_size(),
    {
        self.iterations_per_cycle = number;
    }

    /// The main population.
    pub fn get_population(&self) -> (population: &Population<Gene>)
        ensures
            *population == self.population(),
    {
        &self.main_population
    }

    /// The data that every fitness evaluation is given.
    pub fn data(&self) -> (data: &Data)
        ensures
            *data == self.shared_data(),
    {
        &self.data
    }

    /// The operations of one generation.
    pub fn operations(&self) -> (operations: &Vec<Operation<Gene, Data>>)
        ensures
            operations@ == self.pipeline(),
    {
        &self.operations
    }

    /// The score provider of the main population.
    pub fn score_provider(&self) -> (provider: &SP)
        ensures
            *provider == self.provider(),
    {
        &self.score_provider
    }

    /// The number of genes of a fresh agent.
    pub fn number_of_genes(&self) -> (number: usize)
        ensures
            number == self.genome_length(),
    {
        self.number_of_genes
    }

    /// The number of agents drawn for a fresh population.
    pub fn initial_population_size(&self) -> (size: usize)
        ensures
            size == self.seed_size(),
    {
        self.initial_population_size
    }

    /// The number of generations in one cycle.
    pub fn iterations_per_cycle(&self) -> (number: usize)
        ensures
            number == self.cycle_length(),
    {
        self.iterations_per_cycle
    }

    /// The best rank seen at the end of a cycle so far.
    pub fn current_highest(&self) -> (best: Score)
        ensures
            best == self.best_rank(),
    {
        self.current_highest
    }

    /// The number of workers that were started and have not been heard of.
    pub fn number_of_child_threads(&self) -> (live: u8)
        ensures
            live == self.live_workers(),
    {
        self.number_of_child_threads
    }

    /// Whether the goal has been reached.
    pub fn is_converged(&self) -> (converged: bool)
        ensures
            converged == (self.phase() is Converged),
    {
        match self.phase {
            Phase::Converged => true,
            _ => false,
        }
    }
}

impl<Gene, Data, SP> Manager<Gene, Data, SP> where
    Gene: RandomGene + Clone + Hash,
    SP: ScoreProvider<Gene, Data>,
 {
    /// A manager that has not started: an empty main population, genomes of
    /// 10 genes, fresh populations of 100 agents, cycles of 100 generations,
    /// 3 workers, and a pipeline that mutates a tenth of the agents drawn at
    /// random, crosses the highest fifth, crosses a fifth drawn at random,
    /// and culls the lowest tenth.
    pub fn new(score_provider: SP, data: Data) -> (manager: Self)
        ensures
            manager.well_formed(),
            manager.phase() is Idle,
            manager.population()@ == Map::<Score, Agent<Gene>>::empty(),
            manager.best_rank() == 0,
            manager.live_workers() == 0,
            manager.worker_budget() == 3,
            manager.genome_length() == 10,
            !manager.strict_length(),
            manager.seed_size() == 100,
            manager.cycle_length() == 100,
            manager.provider() == score_provider,
            manager.shared_data() == data,
            is_usual_pipeline(manager.pipeline()),
    {
        let mut operations: Vec<Operation<Gene, Data>> = Vec::new();
        operations.push(
            Operation::new(
                OperationType::Mutate,
                Selection::new(SelectionType::RandomAny, Proportion::from_percent(10)),
            ),
        );
        operations.push(
            Operation::new(
                OperationType::Crossover,
                Selection::new(SelectionType::HighestScore, Proportion::from_percent(20)),
            ),
        );
        operations.push(
            Operation::new(
                OperationType::Crossover,
                Selection::new(SelectionType::RandomAny, Proportion::from_percent(20)),
            ),
        );
        operations.push(
            Operation::new(
                OperationType::Cull,
                Selection::new(SelectionType::LowestScore, Proportion::from_percent(10)),
            ),
        );
        Manager {
            main_population: Population::new_empty(false),
            data,
            number_of_genes: 10,
            strict_gene_length: false,
            initial_population_size: 100,
            current_highest: 0,
            number_of_child_threads: 0,
            max_child_threads: 3,
            operations,
            iterations_per_cycle: 100,
            score_provider,
            phase: Phase::Idle,
        }
    }

    /// Decides, from the best rank seen, whether the search goes on, and
    /// counts the workers that the driver is told to start.
    fn decide(&mut self, goal: Score) -> (directive: Directive)
        ensures
            final(self).population() == old(self).population(),
            final(self).best_rank() == old(self).best_rank(),
            final(self).provider() == old(self).provider(),
            old(self).same_settings(final(self)),
            is_decision(
                old(self).best_rank(),
                goal,
                old(self).live_workers(),
                old(self).worker_budget(),
                final(self).phase(),
                final(self).live_workers(),
                directive,
            ),
    {
        if self.current_highest >= goal {
            self.phase = Phase::Converged;
            Directive::Stop
        } else {
            self.phase = Phase::Running;
            let missing = if self.number_of_child_threads < self.max_child_threads {
                self.max_child_threads - self.number_of_child_threads
            } else {
                0
            };
            self.number_of_child_threads = self.number_of_child_threads + missing;
            Directive::Cycle(missing)
        }
    }

    /// Seeds the main population with freshly drawn agents and says what to
    /// do next. The best rank seen is not taken from the seed: a goal above
    /// it always gets one cycle, and a goal of 0 none.
    pub fn start(&mut self, goal: Score) -> (directive: Directive)
        requires
            old(self).well_formed(),
        ensures
            final(self).well_formed(),
            old(self).same_settings(final(self)),
            final(self).population()@.len() <= old(self).seed_size(),
            forall|score: Score| #[trigger]
                final(self).population()@.contains_key(score) ==> final(self).population()@[score]@.len()
                    == old(self).genome_length(),
            exists|draws: Seq<Agent<Gene>>, answers: Seq<Result<Score, ScoreError>>| #[trigger]
                is_seed(
                    draws,
                    answers,
                    old(self).seed_size() as nat,
                    old(self).genome_length() as nat,
                    false,
                    old(self).provider().always_scores(),
                    givable(old(self).provider()),
                    final(self).population()@,
                ),
            keeps_word(old(self).provider(), final(self).provider()),
            goal == 0 ==> directive is Stop,
            final(self).best_rank() == old(self).best_rank(),
            is_decision(
                old(self).best_rank(),
                goal,
                old(self).live_workers(),
                old(self).worker_budget(),
                final(self).phase(),
                final(self).live_workers(),
                directive,
            ),
    {
        self.main_population = Population::new(
            self.initial_population_size,
            self.number_of_genes,
            false,
            &self.data,
            &mut self.score_provider,
        );
        let ghost seed = self.main_population@;
        let ghost sure = old(self).provider().always_scores();
        let directive = self.decide(goal);
        proof {
            let (draws, answers) = choose|
                draws: Seq<Agent<Gene>>,
                answers: Seq<Result<Score, ScoreError>>,
            | #[trigger]
                is_seed(
                    draws,
                    answers,
                    old(self).seed_size() as nat,
                    old(self).genome_length() as nat,
                    false,
                    sure,
                    givable(old(self).provider()),
                    seed,
                );
            assert(is_seed(
                draws,
                answers,
                old(self).seed_size() as nat,
                old(self).genome_length() as nat,
                false,
                sure,
                givable(old(self).provider()),
                self.population()@,
            ));
        }
        directive
    }

    /// Evolves the main population for one cycle of generations.
    pub fn evolve(&mut self)
        requires
            old(self).well_formed(),
        ensures
            final(self).well_formed(),
            old(self).same_settings(final(self)),
            final(self).phase() == old(self).phase(),
            final(self).best_rank() == old(self).best_rank(),
            final(self).live_workers() == old(self).live_workers(),
            evolves(
                old(self).pipeline(),
                false,
                old(self).provider().always_scores(),
                givable(old(self).provider()),
                old(self).cycle_length() as nat,
                old(self).population()@,
                final(self).population()@,
            ),
            keeps_word(old(self).provider(), final(self).provider()),
    {
        let mut current = Population::new_empty(false);
        std::mem::swap(&mut self.main_population, &mut current);
        self.main_population = run_iterations(
            current,
            self.iterations_per_cycle,
            &self.data,
            &self.operations,
            &mut self.score_provider,
        );
    }

    /// Takes in what one worker has sent back: each agent of the snapshot is
    /// offered to the main population under its key, in ascending order of
    /// the keys, and the worker counts as live no more.
    pub fn absorb(&mut self, snapshot: BTreeMap<Score, Agent<Gene>>)
        requires
            old(self).well_formed(),
        ensures
            final(self).well_formed(),
            old(self).same_settings(final(self)),
            final(self).phase() == old(self).phase(),
            final(self).best_rank() == old(self).best_rank(),
            final(self).provider() == old(self).provider(),
            final(self).population()@ == merged(
                old(self).population()@,
                false,
                snapshot@,
                ranking_of(snapshot@.dom()),
            ),
            final(self).live_workers() == if old(self).live_workers() > 0 {
                (old(self).live_workers() - 1) as u8
            } else {
                0
            },
    {
        self.main_population.set_agents(snapshot);
        if self.number_of_child_threads > 0 {
            self.number_of_child_threads = self.number_of_child_threads - 1;
        }
    }

    /// Ends a cycle: the best rank seen becomes the highest key of the main
    /// population (it stays where the population is empty), and the manager
    /// says what to do next.
    pub fn finish_cycle(&mut self, goal: Score) -> (directive: Directive)
        requires
            old(self).well_formed(),
        ensures
            final(self).well_formed(),
            old(self).same_settings(final(self)),
            final(self).population() == old(self).population(),
            final(self).provider() == old(self).provider(),
            old(self).population()@.len() == 0 ==> final(self).best_rank() == old(self).best_rank(),
            old(self).population()@.len() > 0 ==> old(self).population()@.contains_key(
                final(self).best_rank(),
            ) && forall|key: Score|
                old(self).population()@.contains_key(key) ==> key <= final(self).best_rank(),
            is_decision(
                final(self).best_rank(),
                goal,
                old(self).live_workers(),
                old(self).worker_budget(),
                final(self).phase(),
                final(self).live_workers(),
                directive,
            ),
    {
        match self.main_population.highest_score() {
            Some(highest) => {
                self.current_highest = highest;
            },
            None => {},
        }
        self.decide(goal)
    }
}

/// A manager around a fitness function, with a jitter bound of 25.
pub fn create_manager<Gene, Data, F>(fitness_function: F, data: Data) -> (manager: Manager<
    Gene,
    Data,
    GeneralScoreProvider<Gene, Data, F>,
>) where
    Gene: RandomGene + Clone + Hash,
    F: Fn(&Agent<Gene>, &Data) -> Result<Score, ScoreError>,

    requires
        forall|agent: &Agent<Gene>, data: &Data| call_requires(fitness_function, (agent, data)),
    ensures
        manager.well_formed(),
        manager.phase() is Idle,
        manager.population()@ == Map::<Score, Agent<Gene>>::empty(),
        manager.best_rank() == 0,
        manager.live_workers() == 0,
        manager.worker_budget() == 3,
        manager.genome_length() == 10,
        !manager.strict_length(),
        manager.seed_size() == 100,
        manager.cycle_length() == 100,
        is_usual_pipeline(manager.pipeline()),
        manager.shared_data() == data,
        manager.provider().fitness_function() == fitness_function,
        manager.provider().jitter_bound() == 25,
        manager.provider().cache() == Map::<u64, Score>::empty(),
        manager.provider().always_scores() == never_fails::<Gene, Data, F>(fitness_function),
        forall|key: Score| #[trigger]
            manager.provider().can_give(key) == is_givable::<Gene, Data, F>(
                fitness_function,
                Map::<u64, Score>::empty(),
                25,
                key,
            ),
{
    Manager::new(GeneralScoreProvider::new(fitness_function, 25), data)
}

/// Whether `snapshot` can come of a worker's breeding: `seed` is a fresh
/// population of the given size and genome length, made of `draws` and the
/// provider's `answers`;
/// `grown` is what the generations make of it; and `snapshot` is what is
/// left of `grown` when the lower half, one agent at least, is culled.
pub open spec fn is_breeding<Gene: Clone, Data>(
    draws: Seq<Agent<Gene>>,
    answers: Seq<Result<Score, ScoreError>>,
    seed: Map<Score, Agent<Gene>>,
    grown: Map<Score, Agent<Gene>>,
    size: nat,
    length: nat,
    sure: bool,
    can: spec_fn(Score) -> bool,
    iterations: nat,
    operations: Seq<Operation<Gene, Data>>,
    snapshot: Map<Score, Agent<Gene>>,
) -> bool {
    &&& is_seed(draws, answers, size, length, false, sure, can, seed)
    &&& evolves(operations, false, sure, can, iterations, seed, grown)
    &&& snapshot == culled(
        grown,
        SelectionType::LowestScore,
        selected_count(grown.len(), Proportion::percent(50), 1),
    )
}

/// What one worker does: it draws a fresh population, evolves it for
/// `iterations_per_cycle` generations, culls the lower half, and returns
/// what is left.
pub fn breed_candidates<Gene, Data, SP>(
    initial_population_size: usize,
    number_of_genes: usize,
    iterations_per_cycle: usize,
    data: &Data,
    operations: &Vec<Operation<Gene, Data>>,
    score_provider: &mut SP,
) -> (snapshot: BTreeMap<Score, Agent<Gene>>) where
    Gene: RandomGene + Clone + Hash,
    SP: ScoreProvider<Gene, Data>,

    requires
        all_supported(operations@),
    ensures
        exists|
            draws: Seq<Agent<Gene>>,
            answers: Seq<Result<Score, ScoreError>>,
            seed: Map<Score, Agent<Gene>>,
            grown: Map<Score, Agent<Gene>>,
        | #[trigger]
            is_breeding(
                draws,
                answers,
                seed,
                grown,
                initial_population_size as nat,
                number_of_genes as nat,
                old(score_provider).always_scores(),
                givable(*old(score_provider)),
                iterations_per_cycle as nat,
                operations@,
                snapshot@,
            ),
        keeps_word(*old(score_provider), *final(score_provider)),
{
    let ghost sure = old(score_provider).always_scores();
    let ghost can = givable(*old(score_provider));
    let seed = Population::new(
        initial_population_size,
        number_of_genes,
        false,
        data,
        score_provider,
    );
    let ghost seeded = seed@;
    let ghost sure_now = score_provider.always_scores();
    let ghost can_now = givable(*score_provider);
    let grown = run_iterations(seed, iterations_per_cycle, data, operations, score_provider);
    let ghost evolved = grown@;
    let survivors = cull_lowest_agents(grown, Proportion::from_percent(50), 1);
    let snapshot = survivors.get_agents().clone();
    proof {
        assert(covers(sure_now, can_now, sure, can));
        lemma_evolves_weakens(
            operations@,
            false,
            sure_now,
            can_now,
            sure,
            can,
            iterations_per_cycle as nat,
            seeded,
            evolved,
        );
        let (draws, answers) = choose|
            draws: Seq<Agent<Gene>>,
            answers: Seq<Result<Score, ScoreError>>,
        | #[trigger]
            is_seed(
                draws,
                answers,
                initial_population_size as nat,
                number_of_genes as nat,
                false,
                sure,
                givable(*old(score_provider)),
                seeded,
            );
        assert(is_breeding(
            draws,
            answers,
            seeded,
            evolved,
            initial_population_size as nat,
            number_of_genes as nat,
            sure,
            givable(*old(score_provider)),
            iterations_per_cycle as nat,
            operations@,
            snapshot@,
        ));
    }
    snapshot
}

} // verus!
