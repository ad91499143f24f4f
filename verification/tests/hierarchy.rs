use aristeia::agent::Agent;
use aristeia::fitness::GeneralScoreProvider;
use aristeia::fitness::Score;
use aristeia::fitness::ScoreError;
use aristeia::hierarchy::evolve_hierarchy;
use aristeia::hierarchy::merge_batch;
use aristeia::hierarchy::Layout;
use aristeia::operations::Operation;
use aristeia::operations::OperationType;
use aristeia::operations::Proportion;
use aristeia::operations::Selection;
use aristeia::operations::SelectionType;
use aristeia::population::Population;

fn length_of(agent: &Agent<u8>, _data: &u8) -> Result<Score, ScoreError> {
    Ok(agent.get_genes().len() as Score)
}

fn sum_of_genes(agent: &Agent<u8>, _data: &u8) -> Result<Score, ScoreError> {
    Ok(agent.get_genes().iter().map(|gene| *gene as Score).sum())
}

fn keyed(keys: &[Score]) -> Population<u8> {
    let mut population: Population<u8> = Population::new_empty(false);
    for key in keys {
        population.insert(*key, Agent::new(*key as usize));
    }
    population
}

fn layout(sub_populations_per_level: usize, iterations: usize, size: usize) -> Layout {
    Layout {
        sub_populations_per_level,
        iterations_on_each_population: iterations,
        population_size: size,
        number_of_genes: 4,
    }
}

#[test]
fn merge_batch_pools_and_culls() {
    let mut provider = GeneralScoreProvider::new(length_of, 0);
    let batch = vec![keyed(&[1, 4, 7]), keyed(&[2, 5, 8]), keyed(&[3, 6, 9])];
    // Nine agents are pooled; a third of them, the lowest three, are culled.
    let result = merge_batch(batch, layout(3, 0, 3), &0, &Vec::new(), &mut provider);
    assert_eq!(vec![4, 5, 6, 7, 8, 9], result.get_scores());
}

#[test]
fn merge_batch_lets_later_agent_take_a_shared_key() {
    let mut provider = GeneralScoreProvider::new(length_of, 0);
    let mut first: Population<u8> = Population::new_empty(false);
    first.insert(5, Agent::new(1));
    first.insert(6, Agent::new(1));
    let mut second: Population<u8> = Population::new_empty(false);
    second.insert(5, Agent::new(2));
    second.insert(9, Agent::new(2));
    let result = merge_batch(vec![first, second], layout(2, 0, 2), &0, &Vec::new(), &mut provider);
    // Three keys are pooled, 5 now held by the second part; half of three,
    // one agent, is culled.
    assert_eq!(vec![6, 9], result.get_scores());
    let mut first: Population<u8> = Population::new_empty(false);
    first.insert(5, Agent::new(1));
    let mut second: Population<u8> = Population::new_empty(false);
    second.insert(5, Agent::new(2));
    let result = merge_batch(vec![first, second], layout(2, 0, 2), &0, &Vec::new(), &mut provider);
    assert_eq!(2, result.get(5).unwrap().get_genes().len());
}

#[test]
fn merge_batch_of_one_keeps_all() {
    let mut provider = GeneralScoreProvider::new(length_of, 0);
    let result = merge_batch(vec![keyed(&[1, 2, 3])], layout(1, 0, 3), &0, &Vec::new(), &mut provider);
    assert_eq!(vec![1, 2, 3], result.get_scores());
}

#[test]
fn hierarchy_without_levels_is_one_population() {
    let mut provider = GeneralScoreProvider::new(sum_of_genes, 25);
    let result: Population<u8> =
        evolve_hierarchy(0, layout(3, 0, 12), &0, &Vec::new(), &mut provider);
    assert!(result.len() <= 12);
    assert!(!result.is_unique());
    for (_score, agent) in result.get_agents() {
        assert_eq!(4, agent.get_genes().len());
    }
}

#[test]
fn hierarchy_ends_with_one_population() {
    let mut provider = GeneralScoreProvider::new(sum_of_genes, 25);
    let operations: Vec<Operation<u8, u8>> = vec![
        Operation::new(
            OperationType::Mutate,
            Selection::new(SelectionType::RandomAny, Proportion::from_percent(20)),
        ),
        Operation::new(
            OperationType::Crossover,
            Selection::new(SelectionType::HighestScore, Proportion::from_percent(20)),
        ),
        Operation::new(
            OperationType::Cull,
            Selection::new(SelectionType::LowestScore, Proportion::from_percent(20)),
        ),
    ];
    let result: Population<u8> = evolve_hierarchy(2, layout(3, 3, 10), &0, &operations, &mut provider);
    assert!(result.len() >= 1);
    for (_score, agent) in result.get_agents() {
        assert_eq!(4, agent.get_genes().len());
    }
}

#[test]
fn hierarchy_pools_all_seeds() {
    let mut provider = GeneralScoreProvider::new(sum_of_genes, 25);
    // Two levels of two: four seeds of at most 6 agents; at each merger half
    // of the pool is culled.
    let result: Population<u8> =
        evolve_hierarchy(2, layout(2, 0, 6), &0, &Vec::new(), &mut provider);
    assert!(result.len() <= 6);
    assert!(result.len() >= 1);
}
