use aristeia::agent::Agent;
use aristeia::operations::Score;
use aristeia::operations::ScoreProvider;
use aristeia::population::Population;
use std::collections::BTreeMap;

fn get_score_index(agent: &Agent<u8>, _data: &u8) -> Score {
    agent.get_genes()[0] as Score
}

/// A fresh population. Two agents that score 0 share that key, and the
/// later one replaces the earlier; only a population that is short and holds
/// the key 0 can have lost an agent in this way, and it is drawn again.
fn population_of(size: usize, genes: usize, unique: bool) -> Population<u8> {
    loop {
        let population =
            Population::new(size, genes, unique, &0, &mut ScoreProvider::new(get_score_index, 25));
        if population.len() == size || !population.contains_score(0) {
            return population;
        }
    }
}

fn agents_with_distinct_hashes(count: usize) -> Vec<Agent<u8>> {
    let mut agents: Vec<Agent<u8>> = Vec::new();
    while agents.len() < count {
        let agent: Agent<u8> = Agent::new(8);
        if agents.iter().all(|other| !other.has_same_genes(&agent)) {
            agents.push(agent);
        }
    }
    agents
}

#[test]
fn new_empty() {
    let population: Population<u8> = Population::new_empty(false);
    assert_eq!(0, population.len());
    assert_eq!(0, population.get_agents().len());
    assert_eq!(0, population.get_scores().len());
}

#[test]
fn new_with_false_unique() {
    let mut population = population_of(5, 6, false);
    assert_eq!(5, population.len());
    assert_eq!(5, population.get_agents().len());
    assert_eq!(5, population.get_scores().len());
    for (_score, agent) in population.get_agents() {
        assert_eq!(6, agent.get_genes().len());
    }

    let random_score = population.get_random_score();
    let agent = population.get(random_score).unwrap().clone();
    assert!(population.will_accept(&agent));
    let mut new_score = 0;
    while population.contains_score(new_score) {
        new_score += 1;
    }

    population.insert(new_score, agent);
    assert_eq!(6, population.len());
    assert_eq!(6, population.get_agents().len());
    assert_eq!(6, population.get_scores().len());
}

#[test]
fn new_with_true_unique() {
    let mut population = population_of(5, 6, true);
    assert_eq!(5, population.len());
    assert_eq!(5, population.get_agents().len());
    assert_eq!(5, population.get_scores().len());
    for (_score, agent) in population.get_agents() {
        assert_eq!(6, agent.get_genes().len());
    }

    let random_score = population.get_random_score();
    let agent = population.get(random_score).unwrap().clone();
    assert!(!population.will_accept(&agent));
    let mut new_score = 0;
    while population.contains_score(new_score) {
        new_score += 1;
    }

    population.insert(new_score, agent.clone());
    assert_eq!(5, population.len());
    assert_eq!(5, population.get_agents().len());
    assert_eq!(5, population.get_scores().len());

    population.remove(random_score);
    assert_eq!(4, population.len());
    assert_eq!(4, population.get_agents().len());
    assert_eq!(4, population.get_scores().len());

    population.insert(new_score, agent);
    assert_eq!(5, population.len());
    assert_eq!(5, population.get_agents().len());
    assert_eq!(5, population.get_scores().len());
}

#[test]
fn cull_all_below() {
    let mut population = population_of(5, 6, true);
    assert_eq!(5, population.len());
    assert_eq!(5, population.get_agents().len());
    assert_eq!(5, population.get_scores().len());

    let lowest = population.get_scores()[0];
    let second_lowest = population.get_scores()[1];
    let middle = population.get_scores()[2];
    let second_highest = population.get_scores()[3];
    let highest = population.get_scores()[4];

    // Ensure ordering is as expected.
    assert!(highest > lowest);

    // Will be used for checking register of hashes was updated.
    let lowest_clone = population.get(lowest).unwrap().clone();
    let highest_clone = population.get(highest).unwrap().clone();

    population.cull_all_below(middle);
    assert_eq!(3, population.len());
    assert_eq!(3, population.get_agents().len());
    assert_eq!(3, population.get_scores().len());

    assert!(!population.contains_score(lowest));
    assert!(!population.contains_score(second_lowest));
    assert!(population.contains_score(middle));
    assert!(population.contains_score(second_highest));
    assert!(population.contains_score(highest));

    let mut new_score = 0;
    while population.contains_score(new_score) {
        new_score += 1;
    }

    // The highest is still in there and so its clone should not be accepted.
    assert!(!population.will_accept(&highest_clone));
    population.insert(new_score, highest_clone);
    assert_eq!(3, population.len());
    assert_eq!(3, population.get_agents().len());
    assert_eq!(3, population.get_scores().len());

    // The lowest is no longer there and so its clone can be accepted.
    assert!(population.will_accept(&lowest_clone));
    population.insert(new_score, lowest_clone);
    assert_eq!(4, population.len());
    assert_eq!(4, population.get_agents().len());
    assert_eq!(4, population.get_scores().len());
}

#[test]
fn new_holds_no_more_than_asked_for() {
    for _ in 0..20 {
        let population: Population<u8> =
            Population::new(12, 3, true, &0, &mut ScoreProvider::new(get_score_index, 2));
        assert!(population.len() <= 12);
        assert!(population.is_unique());
        assert_eq!(population.len(), population.register_len());
        for (_score, agent) in population.get_agents() {
            assert_eq!(3, agent.get_genes().len());
        }
    }
}

#[test]
fn new_of_size_zero_is_empty() {
    let population: Population<u8> =
        Population::new(0, 4, false, &0, &mut ScoreProvider::new(get_score_index, 25));
    assert_eq!(0, population.len());
    assert_eq!(None, population.highest_score());
}

#[test]
fn register_keeps_step_with_agents() {
    let agents = agents_with_distinct_hashes(6);
    let mut population: Population<u8> = Population::new_empty(true);
    assert_eq!(0, population.register_len());
    for (position, agent) in agents.iter().enumerate() {
        population.insert(10 * position as Score, agent.clone());
        assert_eq!(population.len(), population.register_len());
    }
    assert_eq!(6, population.len());

    // A genome that is registered is not taken again.
    population.insert(99, agents[2].clone());
    assert_eq!(6, population.len());
    assert_eq!(6, population.register_len());
    assert!(!population.contains_score(99));

    population.remove(20);
    assert_eq!(5, population.len());
    assert_eq!(5, population.register_len());

    // Removing a key that is not there changes nothing.
    assert!(population.remove(20).is_none());
    assert_eq!(5, population.len());
    assert_eq!(5, population.register_len());

    population.cull_all_below(30);
    assert_eq!(3, population.len());
    assert_eq!(3, population.register_len());

    population.cull_all_above(50);
    assert_eq!(2, population.len());
    assert_eq!(2, population.register_len());
    assert_eq!(vec![30, 40], population.get_scores());

    // What was culled can come back.
    assert!(population.will_accept(&agents[0]));
    assert!(population.will_accept(&agents[5]));
    assert!(!population.will_accept(&agents[3]));
}

#[test]
fn insert_on_taken_key_replaces_agent_and_hash() {
    let agents = agents_with_distinct_hashes(2);
    let mut population: Population<u8> = Population::new_empty(true);
    population.insert(7, agents[0].clone());
    population.insert(7, agents[1].clone());
    assert_eq!(1, population.len());
    assert_eq!(1, population.register_len());
    assert_eq!(agents[1].get_hash(), population.get(7).unwrap().get_hash());
    // The agent that was replaced is registered no more.
    assert!(population.will_accept(&agents[0]));
    assert!(!population.will_accept(&agents[1]));
}

#[test]
fn population_without_uniqueness_keeps_no_register() {
    let agent: Agent<u8> = Agent::new(4);
    let mut population: Population<u8> = Population::new_empty(false);
    population.insert(1, agent.clone());
    population.insert(2, agent.clone());
    assert_eq!(2, population.len());
    assert_eq!(0, population.register_len());
    assert!(population.will_accept(&agent));
    assert!(!population.is_unique());
}

#[test]
fn culls_partition_at_the_key() {
    let agents = agents_with_distinct_hashes(7);
    let mut population: Population<u8> = Population::new_empty(true);
    for (position, agent) in agents.iter().enumerate() {
        population.insert(3 * position as Score + 1, agent.clone());
    }
    for boundary in 0..25 {
        let mut upper = population.clone();
        let mut lower = population.clone();
        upper.cull_all_below(boundary);
        lower.cull_all_above(boundary);
        assert!(upper.get_scores().iter().all(|key| *key >= boundary));
        assert!(lower.get_scores().iter().all(|key| *key < boundary));
        let mut together = lower.get_scores();
        together.extend(upper.get_scores());
        assert_eq!(population.get_scores(), together);
        assert_eq!(population.len(), lower.len() + upper.len());
        assert_eq!(upper.len(), upper.register_len());
        assert_eq!(lower.len(), lower.register_len());
    }
}

#[test]
fn cull_all_above_removes_the_key_itself() {
    let mut population: Population<u8> = Population::new_empty(false);
    for key in [2, 4, 6, 8] {
        population.insert(key, Agent::new(1));
    }
    population.cull_all_above(6);
    assert_eq!(vec![2, 4], population.get_scores());
}

#[test]
fn cull_all_below_keeps_the_key_itself() {
    let mut population: Population<u8> = Population::new_empty(false);
    for key in [2, 4, 6, 8] {
        population.insert(key, Agent::new(1));
    }
    population.cull_all_below(5);
    assert_eq!(vec![6, 8], population.get_scores());
    population.cull_all_below(6);
    assert_eq!(vec![6, 8], population.get_scores());
    population.cull_all_below(100);
    assert_eq!(0, population.len());
}

#[test]
fn get_scores_are_ascending() {
    let mut population: Population<u8> = Population::new_empty(false);
    for key in [40, 3, 17, 0, 9] {
        population.insert(key, Agent::new(2));
    }
    assert_eq!(vec![0, 3, 9, 17, 40], population.get_scores());
    assert_eq!(Some(40), population.highest_score());
}

#[test]
fn settle_finds_next_free_key_below() {
    let mut population: Population<u8> = Population::new_empty(false);
    for key in [5, 6, 7] {
        population.insert(key, Agent::new(1));
    }
    assert_eq!(4, population.settle(7));
    assert_eq!(4, population.settle(5));
    assert_eq!(9, population.settle(9));
    assert_eq!(0, population.settle(0));
}

#[test]
fn settle_stops_at_zero() {
    let mut population: Population<u8> = Population::new_empty(false);
    for key in [0, 1, 2] {
        population.insert(key, Agent::new(1));
    }
    assert_eq!(0, population.settle(2));
}

#[test]
fn place_at_zero_replaces_the_agent_there() {
    let first: Agent<u8> = Agent::new(3);
    let second: Agent<u8> = Agent::new(4);
    let mut population: Population<u8> = Population::new_empty(false);
    population.place(0, first);
    population.place(0, second);
    assert_eq!(1, population.len());
    assert_eq!(4, population.get(0).unwrap().get_genes().len());
}

#[test]
fn place_moves_down_from_taken_key() {
    let mut population: Population<u8> = Population::new_empty(false);
    population.place(3, Agent::new(1));
    population.place(3, Agent::new(2));
    population.place(3, Agent::new(3));
    assert_eq!(vec![1, 2, 3], population.get_scores());
    assert_eq!(1, population.get(3).unwrap().get_genes().len());
    assert_eq!(2, population.get(2).unwrap().get_genes().len());
    assert_eq!(3, population.get(1).unwrap().get_genes().len());
}

#[test]
fn set_agents_offers_every_entry() {
    let agents = agents_with_distinct_hashes(4);
    let mut source: BTreeMap<Score, Agent<u8>> = BTreeMap::new();
    source.insert(11, agents[0].clone());
    source.insert(5, agents[1].clone());
    source.insert(8, agents[2].clone());
    let mut population: Population<u8> = Population::new_empty(true);
    population.insert(5, agents[3].clone());
    population.set_agents(source);
    assert_eq!(vec![5, 8, 11], population.get_scores());
    // The entry under 5 was replaced by the one that came in.
    assert_eq!(agents[1].get_hash(), population.get(5).unwrap().get_hash());
    assert_eq!(3, population.register_len());
}

#[test]
fn set_agents_takes_a_genome_once() {
    let agent: Agent<u8> = Agent::new(5);
    let mut source: BTreeMap<Score, Agent<u8>> = BTreeMap::new();
    source.insert(1, agent.clone());
    source.insert(2, agent.clone());
    let mut population: Population<u8> = Population::new_empty(true);
    population.set_agents(source);
    // The lower key comes first and wins.
    assert_eq!(vec![1], population.get_scores());
}

#[test]
fn file_offers_in_order() {
    let agents = agents_with_distinct_hashes(3);
    let mut population: Population<u8> = Population::new_empty(true);
    population.file(vec![
        (9, agents[0].clone()),
        (4, agents[1].clone()),
        (9, agents[2].clone()),
        (6, agents[1].clone()),
    ]);
    assert_eq!(vec![4, 9], population.get_scores());
    assert_eq!(agents[2].get_hash(), population.get(9).unwrap().get_hash());
    assert_eq!(2, population.register_len());
}

#[test]
fn get_finds_what_insert_put() {
    let agent: Agent<u8> = Agent::new(3);
    let mut population: Population<u8> = Population::new_empty(false);
    assert!(population.get(4).is_none());
    population.insert(4, agent.clone());
    assert_eq!(agent.get_genes(), population.get(4).unwrap().get_genes());
    assert!(population.contains_score(4));
    assert!(!population.contains_score(5));
    let removed = population.remove(4).unwrap();
    assert_eq!(agent.get_genes(), removed.get_genes());
    assert!(population.get(4).is_none());
}

#[test]
fn get_random_score_is_a_key_of_the_population() {
    let mut population: Population<u8> = Population::new_empty(false);
    population.insert(77, Agent::new(1));
    for _ in 0..50 {
        assert_eq!(77, population.get_random_score());
    }
    population.insert(3, Agent::new(1));
    population.insert(12, Agent::new(1));
    for _ in 0..50 {
        assert!(population.contains_score(population.get_random_score()));
    }
}

#[test]
fn clone_is_independent() {
    let agents = agents_with_distinct_hashes(3);
    let mut population: Population<u8> = Population::new_empty(true);
    for (position, agent) in agents.iter().enumerate() {
        population.insert(position as Score, agent.clone());
    }
    let mut copy = population.clone();
    copy.remove(1);
    assert_eq!(3, population.len());
    assert_eq!(2, copy.len());
    assert_eq!(2, copy.register_len());
    assert!(copy.will_accept(&agents[1]));
    assert!(!population.will_accept(&agents[1]));
}

#[test]
fn new_places_every_draw_of_a_sure_provider() {
    fn thousand(_agent: &Agent<u8>, _data: &u8) -> Score {
        1000
    }
    for _ in 0..20 {
        let population: Population<u8> =
            Population::new(3, 4, false, &0, &mut ScoreProvider::new(thousand, 25));
        // Three scores in 975..=1024 settle on three keys in 973..=1024.
        assert_eq!(3, population.len());
        for key in population.get_scores() {
            assert!(key >= 973 && key <= 1024);
        }
    }
}
