use aristeia::agent::Agent;
use aristeia::fitness::offset_score;
use aristeia::fitness::GeneralScoreProvider;
use aristeia::fitness::Score;
use aristeia::fitness::ScoreError;
use aristeia::fitness::ScoreProvider;
use aristeia::population::Population;
use std::cell::Cell;

fn sum_of_genes(agent: &Agent<u8>, _data: &u8) -> Result<Score, ScoreError> {
    let mut score = 0;
    for gene in agent.get_genes() {
        score += *gene as Score;
    }
    Ok(score)
}

fn plus_data(agent: &Agent<u8>, data: &u64) -> Result<Score, ScoreError> {
    Ok(agent.get_genes().len() as Score + *data)
}

fn never(_agent: &Agent<u8>, _data: &u8) -> Result<Score, ScoreError> {
    Err(ScoreError::new(String::from("no score")))
}

fn short_only(agent: &Agent<u8>, _data: &u8) -> Result<Score, ScoreError> {
    if agent.get_genes().len() < 4 {
        Ok(1000)
    } else {
        Err(ScoreError::new(String::from("too long")))
    }
}

#[test]
fn score_error_says_what_it_was_given() {
    let error = ScoreError::new(String::from("out of range"));
    assert_eq!("out of range", error.description());
    assert!(format!("{:?}", error).contains("out of range"));
}

#[test]
fn offset_score_lowers_by_the_bound() {
    assert_eq!(85, offset_score(100, 10, 25));
    assert_eq!(100, offset_score(100, 25, 25));
    assert_eq!(124, offset_score(100, 49, 25));
    assert_eq!(75, offset_score(100, 0, 25));
}

#[test]
fn offset_score_stops_at_zero() {
    assert_eq!(0, offset_score(5, 10, 25));
    assert_eq!(0, offset_score(15, 10, 25));
    assert_eq!(1, offset_score(16, 10, 25));
    assert_eq!(0, offset_score(0, 0, 0));
}

#[test]
fn offset_score_stops_at_the_highest_score() {
    assert_eq!(u64::MAX, offset_score(u64::MAX, 30, 25));
    assert_eq!(u64::MAX - 5, offset_score(u64::MAX, 20, 25));
    assert_eq!(u64::MAX, offset_score(u64::MAX, u64::MAX, 0));
}

#[test]
fn get_score_stays_within_the_jitter() {
    let mut provider = GeneralScoreProvider::new(plus_data, 25);
    let mut rng = rand::thread_rng();
    let agent: Agent<u8> = Agent::new(7);
    for _ in 0..200 {
        let score = provider.get_score(&agent, &1000, &mut rng).unwrap();
        assert!(score >= 1007 - 25);
        assert!(score < 1007 + 25);
    }
}

#[test]
fn get_score_near_zero_does_not_go_below() {
    let mut provider = GeneralScoreProvider::new(plus_data, 25);
    let mut rng = rand::thread_rng();
    let agent: Agent<u8> = Agent::new(3);
    for _ in 0..200 {
        let score = provider.get_score(&agent, &0, &mut rng).unwrap();
        assert!(score < 3 + 25);
    }
}

#[test]
fn get_score_without_jitter_is_the_fitness() {
    let mut provider = GeneralScoreProvider::new(sum_of_genes, 0);
    let mut rng = rand::thread_rng();
    let agent: Agent<u8> = Agent::new(5);
    let expected: Score = agent.get_genes().iter().map(|gene| *gene as Score).sum();
    assert_eq!(expected, provider.get_score(&agent, &0, &mut rng).unwrap());
    assert_eq!(expected, provider.get_score(&agent, &0, &mut rng).unwrap());
}

#[test]
fn get_score_asks_the_fitness_function_once() {
    let calls = Cell::new(0);
    let counting = |agent: &Agent<u8>, _data: &u8| -> Result<Score, ScoreError> {
        calls.set(calls.get() + 1);
        Ok(agent.get_genes().len() as Score)
    };
    let mut provider = GeneralScoreProvider::new(counting, 0);
    let mut rng = rand::thread_rng();
    let agent: Agent<u8> = Agent::new(5);
    assert_eq!(5, provider.get_score(&agent, &0, &mut rng).unwrap());
    assert_eq!(5, provider.get_score(&agent, &0, &mut rng).unwrap());
    assert_eq!(5, provider.get_score(&agent.clone(), &0, &mut rng).unwrap());
    assert_eq!(1, calls.get());
}

#[test]
fn get_score_hands_on_the_error() {
    let mut provider = GeneralScoreProvider::new(never, 25);
    let mut rng = rand::thread_rng();
    let agent: Agent<u8> = Agent::new(5);
    let error = provider.get_score(&agent, &0, &mut rng).unwrap_err();
    assert_eq!("no score", error.description());
}

#[test]
fn offset_cached_score_uses_the_remembered_fitness() {
    let mut provider = GeneralScoreProvider::new(plus_data, 25);
    let mut rng = rand::thread_rng();
    let agent: Agent<u8> = Agent::new(4);
    provider.get_score(&agent, &96, &mut rng).unwrap();
    let hash = agent.get_hash();
    assert_eq!(85, provider.offset_cached_score(&hash, 10).unwrap());
    assert_eq!(75, provider.offset_cached_score(&hash, 0).unwrap());
    assert_eq!(124, provider.offset_cached_score(&hash, 49).unwrap());
}

#[test]
fn evaluate_scores_drops_what_cannot_be_scored() {
    let mut provider = GeneralScoreProvider::new(short_only, 0);
    let agents: Vec<Agent<u8>> =
        vec![Agent::new(2), Agent::new(6), Agent::new(3), Agent::new(9), Agent::new(1)];
    let hashes: Vec<u64> = agents.iter().map(|agent| agent.get_hash()).collect();
    let kept = provider.evaluate_scores(agents, &0);
    let kept_hashes: Vec<u64> = kept.iter().map(|agent| agent.get_hash()).collect();
    assert_eq!(vec![hashes[0], hashes[2], hashes[4]], kept_hashes);
    // What was kept is remembered.
    for agent in kept.iter() {
        assert_eq!(1000, provider.offset_cached_score(&agent.get_hash(), 0).unwrap());
    }
}

#[test]
fn evaluate_scores_keeps_what_is_remembered() {
    let calls = Cell::new(0);
    let counting = |agent: &Agent<u8>, _data: &u8| -> Result<Score, ScoreError> {
        calls.set(calls.get() + 1);
        Ok(agent.get_genes().len() as Score)
    };
    let mut provider = GeneralScoreProvider::new(counting, 0);
    let agent: Agent<u8> = Agent::new(5);
    let kept = provider.evaluate_scores(vec![agent.clone(), agent.clone()], &0);
    assert_eq!(2, kept.len());
    assert_eq!(1, calls.get());
    let kept = provider.evaluate_scores(vec![agent.clone()], &0);
    assert_eq!(1, kept.len());
    assert_eq!(1, calls.get());
}

#[test]
fn population_passes_over_agents_without_score() {
    let mut provider = GeneralScoreProvider::new(never, 25);
    let population: Population<u8> = Population::new(10, 4, false, &0, &mut provider);
    assert_eq!(0, population.len());
}

#[test]
fn screen_one_remembers_a_new_fitness() {
    let mut cache: std::collections::HashMap<u64, Score> = std::collections::HashMap::new();
    assert!(aristeia::fitness::screen_one(&mut cache, 5, Ok(7)));
    assert_eq!(Some(&7), cache.get(&5));
    assert_eq!(1, cache.len());
}

#[test]
fn screen_one_keeps_what_is_remembered() {
    let mut cache: std::collections::HashMap<u64, Score> = std::collections::HashMap::new();
    cache.insert(5, 7);
    assert!(aristeia::fitness::screen_one(&mut cache, 5, Ok(9)));
    assert_eq!(Some(&7), cache.get(&5));
    // A genome that is remembered stays whatever the answer.
    assert!(aristeia::fitness::screen_one(&mut cache, 5, Err(ScoreError::new(String::from("no")))));
    assert_eq!(Some(&7), cache.get(&5));
    assert_eq!(1, cache.len());
}

#[test]
fn screen_one_drops_a_new_genome_without_fitness() {
    let mut cache: std::collections::HashMap<u64, Score> = std::collections::HashMap::new();
    cache.insert(1, 2);
    assert!(!aristeia::fitness::screen_one(&mut cache, 5, Err(ScoreError::new(String::from("no")))));
    assert_eq!(None, cache.get(&5));
    assert_eq!(1, cache.len());
}

#[test]
fn evaluate_scores_remembers_only_what_was_scored() {
    let mut provider = GeneralScoreProvider::new(short_only, 0);
    let short: Agent<u8> = Agent::new(2);
    let long: Agent<u8> = Agent::new(7);
    let kept = provider.evaluate_scores(vec![long.clone(), short.clone(), long.clone()], &0);
    assert_eq!(1, kept.len());
    assert_eq!(short.get_hash(), kept[0].get_hash());
    let mut rng = rand::thread_rng();
    // The long genome was not remembered: it is asked about again, and fails.
    assert!(provider.get_score(&long, &0, &mut rng).is_err());
    assert_eq!(1000, provider.get_score(&short, &0, &mut rng).unwrap());
}

#[test]
fn evaluate_scores_of_sure_provider_keeps_all_with_their_scores() {
    fn first_gene(agent: &Agent<u8>, _data: &u8) -> Score {
        agent.get_genes()[0] as Score
    }
    let mut provider = aristeia::operations::ScoreProvider::new(first_gene, 0);
    let agents: Vec<Agent<u8>> = vec![Agent::new(3), Agent::new(4), Agent::new(5)];
    let genes: Vec<u8> = agents.iter().map(|agent| agent.get_genes()[0]).collect();
    let kept = provider.evaluate_scores(agents, &0);
    assert_eq!(3, kept.len());
    let mut rng = rand::thread_rng();
    for (position, agent) in kept.iter().enumerate() {
        assert_eq!(genes[position] as Score, provider.get_score(agent, &0, &mut rng).unwrap());
    }
}
