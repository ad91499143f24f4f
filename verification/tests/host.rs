use aristeia::agent::mate;
use aristeia::agent::Agent;
use aristeia::evolution::run_iterations;
use aristeia::fitness::Score;
use aristeia::fitness::ScoreError;
use aristeia::fitness::ScoreProvider;
use aristeia::manager::create_manager;
use aristeia::manager::Directive;
use aristeia::operations::Operation;
use aristeia::operations::OperationType;
use aristeia::operations::Proportion;
use aristeia::operations::Selection;
use aristeia::operations::SelectionType;
use aristeia::population::Population;
use aristeia::random::random_index;
use aristeia::random::RandomGene;
use rand::rngs::ThreadRng;
use rand::Rng;

#[derive(Clone, Hash, PartialEq, Debug)]
enum Step {
    Left,
    Right,
    Stay,
}

impl RandomGene for Step {
    fn random(rng: &mut ThreadRng) -> Self {
        match rng.gen_range(0, 3) {
            0 => Step::Left,
            1 => Step::Right,
            _ => Step::Stay,
        }
    }
}

fn steps_to_the_right(agent: &Agent<Step>, start: &i64) -> Result<Score, ScoreError> {
    let mut place = *start;
    for step in agent.get_genes() {
        match step {
            Step::Left => place -= 1,
            Step::Right => place += 1,
            Step::Stay => {}
        }
    }
    if place < 0 {
        Err(ScoreError::new(String::from("left of the start")))
    } else {
        Ok(place as Score)
    }
}

/// A provider that ranks an agent by its number of genes and takes none of
/// more than four genes.
struct ByLength {
    asked: usize,
}

impl ScoreProvider<u8, u8> for ByLength {
    fn evaluate_scores(&mut self, agents: Vec<Agent<u8>>, _data: &u8) -> Vec<Agent<u8>> {
        agents.into_iter().filter(|agent| agent.get_genes().len() <= 4).collect()
    }

    fn get_score(
        &mut self,
        agent: &Agent<u8>,
        _data: &u8,
        _rng: &mut ThreadRng,
    ) -> Result<Score, ScoreError> {
        self.asked += 1;
        if agent.get_genes().len() <= 4 {
            Ok(agent.get_genes().len() as Score)
        } else {
            Err(ScoreError::new(String::from("too long")))
        }
    }
}

#[test]
fn host_gene_type_is_drawn_and_bred() {
    let first: Agent<Step> = Agent::new(12);
    let second: Agent<Step> = Agent::new(9);
    assert_eq!(12, first.get_genes().len());
    let mut child = mate(&first, &second);
    assert_eq!(12, child.get_genes().len());
    child.mutate();
    assert_eq!(12, child.get_genes().len());
}

#[test]
fn host_gene_type_runs_through_a_manager() {
    let mut manager = create_manager(steps_to_the_right, 3);
    manager.set_number_of_genes(8, false);
    manager.set_initial_population_size(40);
    manager.set_iterations_per_cycle(3);
    manager.set_max_child_threads(0);
    let mut directive = manager.start(8);
    let mut cycles = 0;
    while let Directive::Cycle(_) = directive {
        manager.evolve();
        directive = manager.finish_cycle(8);
        cycles += 1;
        assert!(cycles < 10000);
    }
    assert!(manager.current_highest() >= 8);
    for (_score, agent) in manager.get_population().get_agents() {
        assert_eq!(8, agent.get_genes().len());
    }
}

#[test]
fn host_provider_decides_what_is_filed() {
    let mut provider = ByLength { asked: 0 };
    let short: Population<u8> = Population::new(6, 3, false, &0, &mut provider);
    // Every agent scores 3; each settles on the next free key below.
    assert_eq!(vec![0, 1, 2, 3], short.get_scores());
    assert_eq!(6, provider.asked);
    let long: Population<u8> = Population::new(6, 5, false, &0, &mut provider);
    assert_eq!(0, long.len());
    assert_eq!(12, provider.asked);
}

#[test]
fn host_provider_runs_through_the_pipeline() {
    let mut provider = ByLength { asked: 0 };
    let mut population: Population<u8> = Population::new_empty(true);
    population.insert(10, Agent::new(4));
    population.insert(20, Agent::new(6));
    let operations: Vec<Operation<u8, u8>> = vec![Operation::new(
        OperationType::Mutate,
        Selection::with_values(SelectionType::HighestScore, Proportion::from_percent(100), 0),
    )];
    let result = run_iterations(population, 1, &0, &operations, &mut provider);
    // Both agents are mutated; the longer one cannot be scored and is
    // dropped, the shorter one is filed under 4.
    assert_eq!(2, provider.asked);
    assert!(result.contains_score(10));
    assert!(result.contains_score(20));
    assert!(result.len() <= 3);
    if result.len() == 3 {
        assert_eq!(4, result.get(4).unwrap().get_genes().len());
    }
}

#[test]
fn random_index_stays_below_the_bound() {
    let mut rng = rand::thread_rng();
    for bound in 1..50 {
        for _ in 0..20 {
            assert!(random_index(&mut rng, bound) < bound);
        }
    }
    assert_eq!(0, random_index(&mut rng, 1));
}
