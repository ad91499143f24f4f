use aristeia::agent::mate;
use aristeia::agent::Agent;
use std::collections::hash_map::DefaultHasher;
use std::hash::{Hash, Hasher};

fn hash_of(genes: &Vec<u8>) -> u64 {
    let mut s = DefaultHasher::new();
    genes.hash(&mut s);
    s.finish()
}

#[test]
fn new_no_genes() {
    let agent: Agent<u8> = Agent::new(0);
    let empty_vec: Vec<u8> = Vec::new();
    assert_eq!(&empty_vec, agent.get_genes());

    // Hash is still generated when there are no genes.
    let mut s = DefaultHasher::new();
    empty_vec.hash(&mut s);
    assert_eq!(s.finish(), agent.get_hash());
}

#[test]
fn new_with_genes() {
    let agent: Agent<u8> = Agent::new(2);

    let genes = agent.get_genes();
    assert_eq!(2, genes.len());

    // Ensure hash is already available.
    let mut s = DefaultHasher::new();
    genes.hash(&mut s);
    assert_eq!(s.finish(), agent.get_hash());
}

#[test]
fn mutate() {
    let mut agent: Agent<u8> = Agent::new(2);

    agent.mutate();

    // Length should still be as specified in new().
    let genes = agent.get_genes();
    assert_eq!(2, genes.len());

    // Ensure hash is correct.
    let mut s = DefaultHasher::new();
    genes.hash(&mut s);
    assert_eq!(s.finish(), agent.get_hash());
}

#[test]
fn crossover_some_genes_same_length_other() {
    let mut agent: Agent<u8> = Agent::new(6);
    let other: Agent<u8> = Agent::new(6);

    agent.crossover_some_genes(&other);

    // Length should still be as specified in new().
    let genes = agent.get_genes();
    assert_eq!(6, genes.len());

    // Ensure hash is correct.
    let mut s = DefaultHasher::new();
    genes.hash(&mut s);
    assert_eq!(s.finish(), agent.get_hash());
}

#[test]
fn crossover_some_genes_shorter_other() {
    let mut agent: Agent<u8> = Agent::new(6);
    let other: Agent<u8> = Agent::new(5);

    agent.crossover_some_genes(&other);

    // Length should still be as specified in new().
    let genes = agent.get_genes();
    assert_eq!(6, genes.len());

    // Ensure hash is correct.
    let mut s = DefaultHasher::new();
    genes.hash(&mut s);
    assert_eq!(s.finish(), agent.get_hash());
}

#[test]
fn crossover_some_genes_longer_other() {
    let mut agent: Agent<u8> = Agent::new(6);
    let other: Agent<u8> = Agent::new(7);

    agent.crossover_some_genes(&other);

    // Length should still be as specified in new().
    let genes = agent.get_genes();
    assert_eq!(6, genes.len());

    // Ensure hash is correct.
    let mut s = DefaultHasher::new();
    genes.hash(&mut s);
    assert_eq!(s.finish(), agent.get_hash());
}

#[test]
fn mate_parents() {
    let parent_one: Agent<u8> = Agent::new(6);
    let parent_two: Agent<u8> = Agent::new(5);

    let child = mate(&parent_one, &parent_two);

    // Length should be as for parent_one.
    let genes = child.get_genes();
    assert_eq!(6, genes.len());

    // Ensure hash is correct.
    let mut s = DefaultHasher::new();
    genes.hash(&mut s);
    assert_eq!(s.finish(), child.get_hash());
}

#[test]
fn mutate_keeps_length_of_single_gene() {
    let mut agent: Agent<u8> = Agent::new(1);
    agent.mutate();
    assert_eq!(1, agent.get_genes().len());
    assert_eq!(hash_of(agent.get_genes()), agent.get_hash());
}

#[test]
fn mutate_keeps_length_of_long_genome() {
    for length in 1..40 {
        let mut agent: Agent<u8> = Agent::new(length);
        agent.mutate();
        assert_eq!(length, agent.get_genes().len());
    }
}

#[test]
fn mutate_changes_few_genes() {
    // Five perturbations take out at most five genes: of 200 genes at least
    // 195 are still there, in their order.
    let mut agent: Agent<u64> = Agent::new(200);
    let before = agent.get_genes().clone();
    agent.mutate();
    let after = agent.get_genes().clone();
    let mut matched = 0;
    let mut position = 0;
    for gene in before.iter() {
        if let Some(found) = after[position..].iter().position(|other| other == gene) {
            matched += 1;
            position += found + 1;
        }
    }
    assert!(matched >= 195);
}

#[test]
fn perturb_removes_then_inserts() {
    let mut agent: Agent<u8> = Agent::new(5);
    let mut expected = agent.get_genes().clone();
    agent.perturb(1, 3, 42);
    expected.remove(1);
    expected.insert(3, 42);
    assert_eq!(&expected, agent.get_genes());
    assert_eq!(hash_of(&expected), agent.get_hash());
}

#[test]
fn perturb_can_append() {
    let mut agent: Agent<u8> = Agent::new(3);
    let mut expected = agent.get_genes().clone();
    agent.perturb(0, 2, 7);
    expected.remove(0);
    expected.push(7);
    assert_eq!(&expected, agent.get_genes());
}

#[test]
fn crossover_at_same_length() {
    let mut agent: Agent<u8> = Agent::new(6);
    let other: Agent<u8> = Agent::new(6);
    let mut expected: Vec<u8> = agent.get_genes()[..2].to_vec();
    expected.extend_from_slice(&other.get_genes()[2..]);
    agent.crossover_at(&other, 2);
    assert_eq!(&expected, agent.get_genes());
    assert_eq!(hash_of(&expected), agent.get_hash());
}

#[test]
fn crossover_at_shorter_other_cuts_later() {
    let mut agent: Agent<u8> = Agent::new(6);
    let other: Agent<u8> = Agent::new(4);
    // The cut moves by the difference in length: 2 + (6 - 4) = 4.
    let mut expected: Vec<u8> = agent.get_genes()[..4].to_vec();
    expected.extend_from_slice(&other.get_genes()[2..]);
    agent.crossover_at(&other, 2);
    assert_eq!(6, agent.get_genes().len());
    assert_eq!(&expected, agent.get_genes());
}

#[test]
fn crossover_at_longer_other_resumes_later() {
    let mut agent: Agent<u8> = Agent::new(4);
    let other: Agent<u8> = Agent::new(7);
    // The other genome is taken up at 1 + (7 - 4) = 4.
    let mut expected: Vec<u8> = agent.get_genes()[..1].to_vec();
    expected.extend_from_slice(&other.get_genes()[4..]);
    agent.crossover_at(&other, 1);
    assert_eq!(4, agent.get_genes().len());
    assert_eq!(&expected, agent.get_genes());
}

#[test]
fn crossover_with_empty_other_keeps_genes() {
    let mut agent: Agent<u8> = Agent::new(5);
    let other: Agent<u8> = Agent::new(0);
    let expected = agent.get_genes().clone();
    agent.crossover_some_genes(&other);
    assert_eq!(&expected, agent.get_genes());
}

#[test]
fn crossover_of_empty_agent_stays_empty() {
    let mut agent: Agent<u8> = Agent::new(0);
    let other: Agent<u8> = Agent::new(5);
    agent.crossover_some_genes(&other);
    assert_eq!(0, agent.get_genes().len());
}

#[test]
fn mate_child_has_length_of_first_parent() {
    for first in 0..8 {
        for second in 0..8 {
            let parent_one: Agent<u8> = Agent::new(first);
            let parent_two: Agent<u8> = Agent::new(second);
            let child = mate(&parent_one, &parent_two);
            assert_eq!(first, child.get_genes().len());
            assert_eq!(hash_of(child.get_genes()), child.get_hash());
        }
    }
}

#[test]
fn mate_child_is_spliced_from_parents() {
    let parent_one: Agent<u8> = Agent::new(6);
    let parent_two: Agent<u8> = Agent::new(6);
    let child = mate(&parent_one, &parent_two);
    let genes = child.get_genes();
    let found = (0..6).any(|point| {
        genes[..point] == parent_one.get_genes()[..point]
            && genes[point..] == parent_two.get_genes()[point..]
    });
    assert!(found);
}

#[test]
fn has_same_genes_goes_by_hash() {
    let agent: Agent<u8> = Agent::new(8);
    let copy = agent.clone();
    assert!(agent.has_same_genes(&copy));
    assert_eq!(agent.get_hash(), copy.get_hash());
    assert_eq!(agent.get_genes(), copy.get_genes());
    let other: Agent<u8> = Agent::new(9);
    assert_eq!(agent.get_hash() == other.get_hash(), agent.has_same_genes(&other));
}

#[test]
fn new_draws_genes_of_other_types() {
    let bits: Agent<bool> = Agent::new(16);
    assert_eq!(16, bits.get_genes().len());
    let words: Agent<u16> = Agent::new(3);
    assert_eq!(3, words.get_genes().len());
    let longs: Agent<u32> = Agent::new(4);
    assert_eq!(4, longs.get_genes().len());
    let wide: Agent<u64> = Agent::new(5);
    assert_eq!(5, wide.get_genes().len());
}

#[test]
fn new_draws_genes_of_signed_and_wide_types() {
    let signed: Agent<i8> = Agent::new(4);
    assert_eq!(4, signed.get_genes().len());
    let shorts: Agent<i16> = Agent::new(4);
    assert_eq!(4, shorts.get_genes().len());
    let ints: Agent<i32> = Agent::new(4);
    assert_eq!(4, ints.get_genes().len());
    let longs: Agent<i64> = Agent::new(4);
    assert_eq!(4, longs.get_genes().len());
    let wide: Agent<u128> = Agent::new(4);
    assert_eq!(4, wide.get_genes().len());
    let wide_signed: Agent<i128> = Agent::new(4);
    assert_eq!(4, wide_signed.get_genes().len());
    let sizes: Agent<usize> = Agent::new(4);
    assert_eq!(4, sizes.get_genes().len());
    let offsets: Agent<isize> = Agent::new(4);
    assert_eq!(4, offsets.get_genes().len());
    let mut letters: Agent<char> = Agent::new(12);
    letters.mutate();
    assert_eq!(12, letters.get_genes().len());
}
