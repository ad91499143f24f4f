use aristeia::agent::Agent;
use aristeia::evolution::run_iterations;
use aristeia::fitness::GeneralScoreProvider;
use aristeia::fitness::Score;
use aristeia::fitness::ScoreError;
use aristeia::operations::Operation;
use aristeia::operations::OperationType;
use aristeia::operations::Proportion;
use aristeia::operations::Selection;
use aristeia::operations::SelectionType;
use aristeia::population::Population;

fn get_score_index(agent: &Agent<u8>, _data: &u8) -> Result<Score, ScoreError> {
    let score = agent.get_genes()[0] as Score;
    Ok(score)
}

fn pipeline() -> Vec<Operation<u8, u8>> {
    vec![
        Operation::new(
            OperationType::Mutate,
            Selection::new(SelectionType::RandomAny, Proportion::from_percent(10)),
        ),
        Operation::new(
            OperationType::Crossover,
            Selection::new(SelectionType::HighestScore, Proportion::from_percent(20)),
        ),
        Operation::new(
            OperationType::Cull,
            Selection::new(SelectionType::LowestScore, Proportion::from_percent(10)),
        ),
    ]
}

#[test]
fn run_iterations_nothing_to_do() {
    let mut score_provider = GeneralScoreProvider::new(get_score_index, 25);
    let population =
        run_iterations(Population::new_empty(false), 0, &0, &Vec::new(), &mut score_provider);
    assert_eq!(0, population.len());
}

#[test]
fn run_iterations_without_iterations_changes_nothing() {
    let mut score_provider = GeneralScoreProvider::new(get_score_index, 25);
    let population: Population<u8> = Population::new(20, 4, false, &0, &mut score_provider);
    let scores = population.get_scores();
    let result = run_iterations(population, 0, &0, &pipeline(), &mut score_provider);
    assert_eq!(scores, result.get_scores());
}

#[test]
fn run_iterations_without_operations_changes_nothing() {
    let mut score_provider = GeneralScoreProvider::new(get_score_index, 25);
    let population: Population<u8> = Population::new(20, 4, false, &0, &mut score_provider);
    let scores = population.get_scores();
    let result = run_iterations(population, 7, &0, &Vec::new(), &mut score_provider);
    assert_eq!(scores, result.get_scores());
}

#[test]
fn run_iterations_keeps_genome_length_and_register() {
    let mut score_provider = GeneralScoreProvider::new(get_score_index, 25);
    let population: Population<u8> = Population::new(40, 5, true, &0, &mut score_provider);
    let result = run_iterations(population, 10, &0, &pipeline(), &mut score_provider);
    assert!(result.len() > 0);
    assert_eq!(result.len(), result.register_len());
    for (_score, agent) in result.get_agents() {
        assert_eq!(5, agent.get_genes().len());
    }
}

#[test]
fn run_iterations_of_culls_only_shrinks() {
    let mut score_provider = GeneralScoreProvider::new(get_score_index, 0);
    let mut population: Population<u8> = Population::new_empty(false);
    for key in 1..=20 {
        population.insert(key, Agent::new(2));
    }
    let culls: Vec<Operation<u8, u8>> = vec![Operation::new(
        OperationType::Cull,
        Selection::with_values(SelectionType::LowestScore, Proportion::from_percent(50), 0),
    )];
    // 20, then 10, then 5 agents: each cull takes the lower half.
    let result = run_iterations(population, 2, &0, &culls, &mut score_provider);
    assert_eq!(vec![16, 17, 18, 19, 20], result.get_scores());
}
