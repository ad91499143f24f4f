use aristeia::agent::Agent;
use aristeia::fitness::GeneralScoreProvider;
use aristeia::fitness::Score;
use aristeia::fitness::ScoreError;
use aristeia::manager::breed_candidates;
use aristeia::manager::create_manager;
use aristeia::manager::Directive;
use aristeia::manager::Manager;
use aristeia::operations::Operation;
use aristeia::operations::OperationType;
use aristeia::operations::Proportion;
use aristeia::operations::Selection;
use aristeia::operations::SelectionType;
use std::collections::BTreeMap;

fn fitness_function(agent: &Agent<u8>, _data: &u8) -> Result<Score, ScoreError> {
    let mut score = 0;
    for gene in agent.get_genes() {
        score += *gene as Score;
    }
    Ok(score)
}

#[test]
fn new_manager_has_the_usual_settings() {
    let manager = create_manager(fitness_function, 0);
    assert_eq!(10, manager.number_of_genes());
    assert_eq!(100, manager.initial_population_size());
    assert_eq!(100, manager.iterations_per_cycle());
    assert_eq!(4, manager.operations().len());
    assert_eq!(0, manager.current_highest());
    assert_eq!(0, manager.number_of_child_threads());
    assert_eq!(0, manager.get_population().len());
    assert!(!manager.is_converged());
    assert_eq!(0, *manager.data());
}

#[test]
fn manager_keeps_the_data_it_was_given() {
    let mut manager = create_manager(fitness_function, 42);
    assert_eq!(42, *manager.data());
    manager.set_initial_population_size(5);
    manager.start(0);
    assert_eq!(42, *manager.data());
}

#[test]
fn goal_of_zero_stops_after_seeding() {
    let mut manager = create_manager(fitness_function, 0);
    manager.set_number_of_genes(5, true);
    manager.set_initial_population_size(30);
    let directive = manager.start(0);
    assert!(matches!(directive, Directive::Stop));
    assert!(manager.is_converged());
    assert!(manager.get_population().len() > 0);
    assert!(manager.get_population().len() <= 30);
    assert_eq!(0, manager.number_of_child_threads());
    for (_score, agent) in manager.get_population().get_agents() {
        assert_eq!(5, agent.get_genes().len());
    }
}

#[test]
fn goal_above_zero_asks_for_workers() {
    let mut manager = create_manager(fitness_function, 0);
    let directive = manager.start(1);
    assert!(matches!(directive, Directive::Cycle(3)));
    assert!(!manager.is_converged());
    assert_eq!(3, manager.number_of_child_threads());
}

#[test]
fn cycle_tops_up_the_workers() {
    let mut manager = create_manager(fitness_function, 0);
    manager.set_max_child_threads(5);
    manager.set_iterations_per_cycle(1);
    manager.set_initial_population_size(10);
    assert!(matches!(manager.start(u64::MAX), Directive::Cycle(5)));
    manager.evolve();
    manager.absorb(BTreeMap::new());
    manager.absorb(BTreeMap::new());
    assert_eq!(3, manager.number_of_child_threads());
    assert!(matches!(manager.finish_cycle(u64::MAX), Directive::Cycle(2)));
    assert_eq!(5, manager.number_of_child_threads());
    manager.evolve();
    assert!(matches!(manager.finish_cycle(u64::MAX), Directive::Cycle(0)));
    assert_eq!(5, manager.number_of_child_threads());
}

#[test]
fn finish_cycle_takes_the_highest_key() {
    let mut manager = create_manager(fitness_function, 0);
    manager.set_max_child_threads(0);
    manager.set_initial_population_size(0);
    manager.set_iterations_per_cycle(0);
    assert!(matches!(manager.start(500), Directive::Cycle(0)));
    let mut snapshot: BTreeMap<Score, Agent<u8>> = BTreeMap::new();
    snapshot.insert(40, Agent::new(10));
    snapshot.insert(499, Agent::new(10));
    manager.absorb(snapshot);
    assert!(matches!(manager.finish_cycle(500), Directive::Cycle(0)));
    assert_eq!(499, manager.current_highest());
    let mut snapshot: BTreeMap<Score, Agent<u8>> = BTreeMap::new();
    snapshot.insert(500, Agent::new(10));
    manager.absorb(snapshot);
    assert!(matches!(manager.finish_cycle(500), Directive::Stop));
    assert_eq!(500, manager.current_highest());
    assert!(manager.is_converged());
    assert_eq!(3, manager.get_population().len());
}

#[test]
fn finish_cycle_of_empty_population_keeps_the_best_rank() {
    let mut manager = create_manager(fitness_function, 0);
    manager.set_initial_population_size(0);
    manager.set_max_child_threads(0);
    assert!(matches!(manager.start(5), Directive::Cycle(0)));
    assert!(matches!(manager.finish_cycle(5), Directive::Cycle(0)));
    assert_eq!(0, manager.current_highest());
}

#[test]
fn absorb_without_live_workers_counts_none() {
    let mut manager = create_manager(fitness_function, 0);
    manager.absorb(BTreeMap::new());
    assert_eq!(0, manager.number_of_child_threads());
}

#[test]
fn manager_reaches_a_goal_without_workers() {
    let mut manager = create_manager(fitness_function, 0);
    manager.set_number_of_genes(5, true);
    manager.set_max_child_threads(0);
    manager.set_initial_population_size(50);
    manager.set_iterations_per_cycle(5);
    let mut directive = manager.start(600);
    let mut cycles = 0;
    while let Directive::Cycle(_) = directive {
        manager.evolve();
        directive = manager.finish_cycle(600);
        cycles += 1;
        assert!(cycles < 10000);
    }
    assert!(manager.is_converged());
    assert!(manager.current_highest() >= 600);
}

#[test]
fn set_operations_replaces_the_pipeline() {
    let mut manager = create_manager(fitness_function, 0);
    let operations: Vec<Operation<u8, u8>> = vec![Operation::new(
        OperationType::Cull,
        Selection::with_values(SelectionType::LowestScore, Proportion::from_percent(50), 0),
    )];
    manager.set_operations(operations);
    manager.set_max_child_threads(0);
    manager.set_initial_population_size(0);
    manager.set_iterations_per_cycle(1);
    assert_eq!(1, manager.operations().len());
    manager.start(1);
    let mut snapshot: BTreeMap<Score, Agent<u8>> = BTreeMap::new();
    for key in 0..8 {
        snapshot.insert(key, Agent::new(1));
    }
    manager.absorb(snapshot);
    manager.evolve();
    assert_eq!(vec![4, 5, 6, 7], manager.get_population().get_scores());
}

#[test]
fn manager_takes_a_provider_of_the_host() {
    let provider = GeneralScoreProvider::new(fitness_function, 3);
    let mut manager: Manager<u8, u8, _> = Manager::new(provider, 0);
    manager.set_initial_population_size(5);
    assert!(matches!(manager.start(0), Directive::Stop));
    assert!(manager.get_population().len() <= 5);
}

#[test]
fn breed_candidates_returns_the_upper_half() {
    let mut provider = GeneralScoreProvider::new(fitness_function, 25);
    let snapshot = breed_candidates(40, 6, 0, &0, &Vec::new(), &mut provider);
    assert!(snapshot.len() <= 20);
    assert!(snapshot.len() >= 1);
    for (_score, agent) in snapshot.iter() {
        assert_eq!(6, agent.get_genes().len());
    }
}

#[test]
fn breed_candidates_runs_the_pipeline() {
    let mut provider = GeneralScoreProvider::new(fitness_function, 25);
    let operations: Vec<Operation<u8, u8>> = vec![
        Operation::new(
            OperationType::Mutate,
            Selection::new(SelectionType::RandomAny, Proportion::from_percent(10)),
        ),
        Operation::new(
            OperationType::Cull,
            Selection::new(SelectionType::LowestScore, Proportion::from_percent(10)),
        ),
    ];
    let snapshot = breed_candidates(50, 4, 20, &0, &operations, &mut provider);
    assert!(snapshot.len() >= 1);
    for (_score, agent) in snapshot.iter() {
        assert_eq!(4, agent.get_genes().len());
    }
}
