//! Populations: agents filed under rank keys.

use crate::agent::Agent;
use crate::fitness::covers;
use crate::fitness::givable;
use crate::fitness::keeps_word;
use crate::fitness::Score;
use crate::fitness::ScoreError;
use crate::fitness::ScoreProvider;
use crate::random::random_index;
use crate::random::RandomGene;
use crate::ranking::is_ranking;
use crate::ranking::ranked_keys;
use crate::ranking::ranking_of;
use std::collections::BTreeMap;
use std::collections::HashSet;
use std::hash::Hash;
use vstd::prelude::*;
use vstd::set_lib::lemma_map_size;

verus! {

/// The genome hashes of the agents in `agents`.
pub open spec fn hashes<Gene>(agents: Map<Score, Agent<Gene>>) -> Set<u64> {
    agents.dom().map(|score: Score| agents[score].hash_value())
}

/// Whether no two entries of `agents` hold the same genome.
pub open spec fn distinct<Gene>(agents: Map<Score, Agent<Gene>>) -> bool {
    forall|first: Score, second: Score|
        agents.contains_key(first) && agents.contains_key(second) && first != second
            ==> agents[first].hash_value() != agents[second].hash_value()
}

/// The entries of `agents` after `agent` was offered under `score`: where
/// genomes must be unique and this one is present, nothing changes; else
/// the agent takes the key, and whoever held it is gone.
pub open spec fn inserted<Gene>(
    agents: Map<Score, Agent<Gene>>,
    unique: bool,
    score: Score,
    agent: Agent<Gene>,
) -> Map<Score, Agent<Gene>> {
    if unique && hashes(agents).contains(agent.hash_value()) {
        agents
    } else {
        agents.insert(score, agent)
    }
}

/// The entries of `agents` after the agents of `entries` were offered one by
/// one, each under its score, in their order.
pub open spec fn filed<Gene>(
    agents: Map<Score, Agent<Gene>>,
    unique: bool,
    entries: Seq<(Score, Agent<Gene>)>,
) -> Map<Score, Agent<Gene>>
    decreases entries.len(),
{
    if entries.len() == 0 {
        agents
    } else {
        let last = entries.last();
        inserted(filed(agents, unique, entries.drop_last()), unique, last.0, last.1)
    }
}

/// The entries of `agents` after those of `source` under the keys `order`
/// were offered one by one, in that order.
pub open spec fn merged<Gene>(
    agents: Map<Score, Agent<Gene>>,
    unique: bool,
    source: Map<Score, Agent<Gene>>,
    order: Seq<Score>,
) -> Map<Score, Agent<Gene>>
    decreases order.len(),
{
    if order.len() == 0 {
        agents
    } else {
        let score = order.last();
        inserted(merged(agents, unique, source, order.drop_last()), unique, score, source[score])
    }
}

/// The key that an agent scored `score` settles on: the highest key not
/// above `score` that is free, or 0 where all of them are taken.
pub open spec fn settled<Gene>(agents: Map<Score, Agent<Gene>>, score: Score) -> Score
    decreases score,
{
    if score == 0 || !agents.contains_key(score) {
        score
    } else {
        settled(agents, (score - 1) as Score)
    }
}

/// The seed that comes of `draws` when the score provider answers
/// `answers`: the agents are offered one by one to a population that was
/// empty, each under the key on which its score settles. An agent without a
/// score is passed over, and so is one whose genome the population holds
/// where genomes must be unique.
pub open spec fn seeded<Gene>(
    unique: bool,
    draws: Seq<Agent<Gene>>,
    answers: Seq<Result<Score, ScoreError>>,
) -> Map<Score, Agent<Gene>>
    decreases draws.len(),
{
    if draws.len() == 0 {
        Map::empty()
    } else {
        let earlier = seeded(unique, draws.drop_last(), answers.drop_last());
        match answers.last() {
            Ok(score) => inserted(earlier, unique, settled(earlier, score), draws.last()),
            Err(_) => earlier,
        }
    }
}

/// Whether the score provider is asked about the draw at `position`: it is
/// unless genomes must be unique and the seed of the draws before holds this
/// one.
pub open spec fn is_asked<Gene>(
    unique: bool,
    draws: Seq<Agent<Gene>>,
    answers: Seq<Result<Score, ScoreError>>,
    position: int,
) -> bool {
    !(unique && hashes(seeded(unique, draws.take(position), answers.take(position))).contains(
        draws[position].hash_value(),
    ))
}

/// Whether `agents` can be the seed of a population of `size` draws: for
/// each draw there is an agent of `length` genes and an answer of the score
/// provider, and `agents` is the seed that comes of them. Every answer is a
/// score where the provider is `sure` to have one, and every score that the
/// provider was asked for is one that it `can` give. The provider is not
/// asked about an agent that the population would not take; its answer
/// counts for nothing.
pub open spec fn is_seed<Gene>(
    draws: Seq<Agent<Gene>>,
    answers: Seq<Result<Score, ScoreError>>,
    size: nat,
    length: nat,
    unique: bool,
    sure: bool,
    can: spec_fn(Score) -> bool,
    agents: Map<Score, Agent<Gene>>,
) -> bool {
    &&& draws.len() == size
    &&& answers.len() == size
    &&& forall|i: int| 0 <= i < draws.len() ==> (#[trigger] draws[i])@.len() == length
    &&& sure ==> forall|i: int| 0 <= i < answers.len() ==> #[trigger] answers[i] is Ok
    &&& forall|i: int|
        0 <= i < answers.len() && is_asked(unique, draws, answers, i) ==> (
        #[trigger] answers[i] matches Ok(score) ==> can(score))
    &&& agents == seeded(unique, draws, answers)
}

/// A seed made with a provider that says more of itself is one made with a
/// provider that says less.
pub proof fn lemma_seed_weakens<Gene>(
    draws: Seq<Agent<Gene>>,
    answers: Seq<Result<Score, ScoreError>>,
    size: nat,
    length: nat,
    unique: bool,
    sure: bool,
    can: spec_fn(Score) -> bool,
    lesser_sure: bool,
    lesser_can: spec_fn(Score) -> bool,
    agents: Map<Score, Agent<Gene>>,
)
    requires
        is_seed(draws, answers, size, length, unique, sure, can, agents),
        covers(sure, can, lesser_sure, lesser_can),
    ensures
        is_seed(draws, answers, size, length, unique, lesser_sure, lesser_can, agents),
{
    assert forall|i: int|
        0 <= i < answers.len() && is_asked(unique, draws, answers, i) implies (
    #[trigger] answers[i] matches Ok(score) ==> lesser_can(score)) by {
        if let Ok(score) = answers[i] {
            assert(can(score));
        }
    }
}

/// The entries of `agents` with a key of at least `score`.
pub open spec fn at_or_above<Gene>(agents: Map<Score, Agent<Gene>>, score: Score) -> Map<
    Score,
    Agent<Gene>,
> {
    agents.restrict(Set::new(|key: Score| key >= score))
}

/// The entries of `agents` with a key below `score`.
pub open spec fn below<Gene>(agents: Map<Score, Agent<Gene>>, score: Score) -> Map<
    Score,
    Agent<Gene>,
> {
    agents.restrict(Set::new(|key: Score| key < score))
}

/// Whether `key` is among `keys` at position `from` or later.
pub open spec fn listed_from(keys: Seq<Score>, from: int, key: Score) -> bool {
    exists|i: int| from <= i < keys.len() && keys[i] == key
}

/// Agents under rank keys, at most one under each key, in ascending order
/// of the keys. A population made with `unique` set holds no genome twice,
/// and keeps a register of the hashes of the genomes it holds.
pub struct Population<Gene> {
    agents: BTreeMap<Score, Agent<Gene>>,
    register: HashSet<u64>,
    unique_agents: bool,
}

impl<Gene> View for Population<Gene> {
    type V = Map<Score, Agent<Gene>>;

    closed spec fn view(&self) -> Map<Score, Agent<Gene>> {
        self.agents@
    }
}

impl<Gene> Population<Gene> {
    /// Whether this population refuses a genome that it holds already.
    pub closed spec fn unique(&self) -> bool {
        self.unique_agents
    }

    /// The register of genome hashes.
    pub closed spec fn register(&self) -> Set<u64> {
        self.register@
    }

    /// The invariant of a population: where genomes must be unique, no two
    /// entries hold the same genome and the register holds exactly the hashes
    /// of the entries; elsewhere the register stays empty.
    pub open spec fn well_formed(&self) -> bool {
        &&& self@.dom().finite()
        &&& self.unique() ==> distinct(self@) && self.register() == hashes(self@)
        &&& !self.unique() ==> self.register() == Set::<u64>::empty()
    }

    /// Whether an offer of `agent` would be taken.
    pub open spec fn accepts(&self, agent: Agent<Gene>) -> bool {
        !self.unique() || !self.register().contains(agent.hash_value())
    }

    /// A population without agents. Where `unique` is set it will hold no
    /// genome twice.
    pub fn new_empty(unique: bool) -> (population: Self)
        ensures
            population.well_formed(),
            population.unique() == unique,
            population@ == Map::<Score, Agent<Gene>>::empty(),
            population.register() == Set::<u64>::empty(),
    {
        let population = Population {
            agents: BTreeMap::new(),
            register: HashSet::new(),
            unique_agents: unique,
        };
        assert(hashes(population@) =~= Set::<u64>::empty());
        population
    }

    /// Files `agent` under `score`, unless genomes must be unique and the
    /// register holds this one already. An agent that held the key before
    /// leaves the population, and the register with it.
    pub fn insert(&mut self, score: Score, agent: Agent<Gene>)
        requires
            old(self).well_formed(),
        ensures
            final(self).well_formed(),
            final(self).unique() == old(self).unique(),
            final(self)@ == inserted(old(self)@, old(self).unique(), score, agent),
            final(self)@ == if old(self).accepts(agent) {
                old(self)@.insert(score, agent)
            } else {
                old(self)@
            },
            final(self).unique() ==> final(self).register().len() == final(self)@.len(),
    {
        proof {
            lemma_register_counts(*old(self));
        }
        if self.unique_agents {
            if self.register.contains(&agent.get_hash()) {
                return ;
            }
            match self.agents.get(&score) {
                Some(displaced) => {
                    self.register.remove(&displaced.get_hash());
                },
                None => {},
            }
            self.register.insert(agent.get_hash());
        }
        self.agents.insert(score, agent);
        proof {
            if self.unique_agents {
                lemma_hashes_insert(old(self)@, score, agent);
            }
            lemma_register_counts(*self);
        }
    }

    /// Takes the agent under `score` out of the population, and its hash out
    /// of the register.
    pub fn remove(&mut self, score: Score) -> (agent: Option<Agent<Gene>>)
        requires
            old(self).well_formed(),
        ensures
            final(self).well_formed(),
            final(self).unique() == old(self).unique(),
            final(self)@ == old(self)@.remove(score),
            agent == if old(self)@.contains_key(score) {
                Some(old(self)@[score])
            } else {
                None
            },
            final(self).unique() ==> final(self).register().len() == final(self)@.len(),
    {
        let agent = self.agents.remove(&score);
        if self.unique_agents {
            match &agent {
                Some(removed) => {
                    self.register.remove(&removed.get_hash());
                    proof {
                        lemma_hashes_remove(old(self)@, score);
                    }
                },
                None => {
                    assert(self@ =~= old(self)@);
                },
            }
        }
        proof {
            lemma_register_counts(*self);
        }
        agent
    }

    /// The agent under `score`, if there is one.
    pub fn get(&self, score: Score) -> (agent: Option<&Agent<Gene>>)
        ensures
            match agent {
                Some(found) => self@.contains_key(score) && *found == self@[score],
                None => !self@.contains_key(score),
            },
    {
        self.agents.get(&score)
    }

    /// The agents of the population under their keys; the population is
    /// given up.
    pub fn into_agents(self) -> (agents: BTreeMap<Score, Agent<Gene>>)
        ensures
            agents@ == self@,
    {
        self.agents
    }

    /// The agents of the population under their keys.
    pub fn get_agents(&self) -> (agents: &BTreeMap<Score, Agent<Gene>>)
        ensures
            agents@ == self@,
    {
        &self.agents
    }

    /// The number of agents.
    pub fn len(&self) -> (count: usize)
        ensures
            count == self@.len(),
    {
        self.agents.len()
    }

    /// The number of genome hashes in the register.
    pub fn register_len(&self) -> (count: usize)
        ensures
            count == self.register().len(),
    {
        self.register.len()
    }

    /// Whether genomes must be unique in this population.
    pub fn is_unique(&self) -> (unique: bool)
        ensures
            unique == self.unique(),
    {
        self.unique_agents
    }

    /// Whether an agent is filed under `score`.
    pub fn contains_score(&self, score: Score) -> (present: bool)
        ensures
            present == self@.contains_key(score),
    {
        self.agents.contains_key(&score)
    }

    /// Whether an offer of `agent` would be taken: always where genomes need
    /// not be unique, else unless the register holds its hash.
    pub fn will_accept(&self, agent: &Agent<Gene>) -> (accepted: bool)
        ensures
            accepted == self.accepts(*agent),
    {
        if self.unique_agents {
            return !self.register.contains(&agent.get_hash());
        }
        true
    }

    /// The rank keys of the population, in ascending order.
    pub fn get_scores(&self) -> (scores: Vec<Score>)
        ensures
            is_ranking(scores@, self@.dom()),
            scores@ == ranking_of(self@.dom()),
            scores@.len() == self@.len(),
    {
        ranked_keys(&self.agents)
    }

    /// A population of up to `start_size` freshly drawn agents of
    /// `number_of_genes` genes each, filed under the keys that
    /// `score_provider` gives them. An agent that the population would not
    /// accept, or that cannot be scored, is passed over. A key that is taken
    /// gives way to the next free key below it; at 0 the newcomer replaces
    /// whoever is there.
    pub fn new<Data, SP>(
        start_size: usize,
        number_of_genes: usize,
        unique: bool,
        data: &Data,
        score_provider: &mut SP,
    ) -> (population: Population<Gene>) where
        Gene: RandomGene + Hash,
        SP: ScoreProvider<Gene, Data>,

        ensures
            population.well_formed(),
            population.unique() == unique,
            population@.len() <= start_size,
            population.unique() ==> population.register().len() == population@.len(),
            forall|score: Score| #[trigger]
                population@.contains_key(score) ==> population@[score]@.len() == number_of_genes,
            exists|draws: Seq<Agent<Gene>>, answers: Seq<Result<Score, ScoreError>>| #[trigger]
                is_seed(
                    draws,
                    answers,
                    start_size as nat,
                    number_of_genes as nat,
                    unique,
                    old(score_provider).always_scores(),
                    givable(*old(score_provider)),
                    population@,
                ),
            keeps_word(*old(score_provider), *final(score_provider)),
    {
        let mut population = Population::new_empty(unique);
        let mut rng = rand::thread_rng();
        let mut drawn: usize = 0;
        let ghost sure = old(score_provider).always_scores();
        let ghost mut draws: Seq<Agent<Gene>> = Seq::empty();
        let ghost mut answers: Seq<Result<Score, ScoreError>> = Seq::empty();
        while drawn < start_size
            invariant
                drawn <= start_size,
                population.well_formed(),
                population.unique() == unique,
                population@.len() <= drawn,
                sure == old(score_provider).always_scores(),
                keeps_word(*old(score_provider), *score_provider),
                forall|score: Score| #[trigger]
                    population@.contains_key(score) ==> population@[score]@.len()
                        == number_of_genes,
                is_seed(
                    draws,
                    answers,
                    drawn as nat,
                    number_of_genes as nat,
                    unique,
                    sure,
                    givable(*old(score_provider)),
                    population@,
                ),
            decreases start_size - drawn,
        {
            let agent = Agent::new(number_of_genes);
            let ghost before = population@;
            let ghost answer: Result<Score, ScoreError>;
            let ghost asked = population.accepts(agent);
            proof {
                lemma_register_counts(population);
            }
            if population.will_accept(&agent) {
                match score_provider.get_score(&agent, data, &mut rng) {
                    Ok(score) => {
                        proof {
                            answer = Ok(score);
                        }
                        population.place(score, agent);
                    },
                    Err(error) => {
                        proof {
                            answer = Err(error);
                        }
                    },
                }
            } else {
                proof {
                    answer = Ok(0);
                }
            }
            proof {
                let longer = draws.push(agent);
                let given = answers.push(answer);
                assert(longer.drop_last() =~= draws);
                assert(given.drop_last() =~= answers);
                assert(longer.last() == agent);
                assert(given.last() == answer);
                assert forall|i: int| 0 <= i < longer.len() implies (#[trigger] longer[i])@.len()
                    == number_of_genes by {
                    if i < draws.len() {
                        assert(longer[i] == draws[i]);
                    }
                }
                if sure {
                    assert forall|i: int| 0 <= i < given.len() implies #[trigger] given[i] is Ok by {
                        if i < answers.len() {
                            assert(given[i] == answers[i]);
                        }
                    }
                }
                assert forall|i: int|
                    0 <= i < given.len() && is_asked(unique, longer, given, i) implies (
                #[trigger] given[i] matches Ok(score) ==> givable(*old(score_provider))(score)) by {
                    assert(longer.take(i) =~= draws.take(i));
                    assert(given.take(i) =~= answers.take(i));
                    if i < answers.len() {
                        assert(given[i] == answers[i]);
                        assert(longer[i] == draws[i]);
                        assert(is_asked(unique, draws, answers, i));
                    } else {
                        assert(draws.take(i) =~= draws);
                        assert(answers.take(i) =~= answers);
                        assert(asked);
                    }
                }
                assert(population@ == seeded(unique, longer, given));
                draws = longer;
                answers = given;
            }
            drawn = drawn + 1;
        }
        proof {
            lemma_register_counts(population);
        }
        population
    }

    /// The key on which an agent scored `score` settles: `score` itself
    /// where it is free, else the next free key below it, or 0 where there
    /// is none.
    pub fn settle(&self, score: Score) -> (key: Score)
        ensures
            key == settled(self@, score),
    {
        let mut key = score;
        while key > 0 && self.agents.contains_key(&key)
            invariant
                settled(self@, key) == settled(self@, score),
            decreases key,
        {
            key = key - 1;
        }
        key
    }

    /// Files `agent` under the key on which `score` settles.
    pub fn place(&mut self, score: Score, agent: Agent<Gene>)
        requires
            old(self).well_formed(),
        ensures
            final(self).well_formed(),
            final(self).unique() == old(self).unique(),
            final(self)@ == inserted(
                old(self)@,
                old(self).unique(),
                settled(old(self)@, score),
                agent,
            ),
            final(self).unique() ==> final(self).register().len() == final(self)@.len(),
    {
        let key = self.settle(score);
        self.insert(key, agent);
    }

    /// Offers each agent of `entries` to the population under its score, in
    /// the order of `entries`.
    pub fn file(&mut self, entries: Vec<(Score, Agent<Gene>)>)
        requires
            old(self).well_formed(),
        ensures
            final(self).well_formed(),
            final(self).unique() == old(self).unique(),
            final(self)@ == filed(old(self)@, old(self).unique(), entries@),
            final(self).unique() ==> final(self).register().len() == final(self)@.len(),
    {
        proof {
            lemma_register_counts(*self);
        }
        let ghost all = entries@;
        for entry in walk: entries
            invariant
                walk.seq() == all,
                self.well_formed(),
                self.unique() == old(self).unique(),
                self.unique() ==> self.register().len() == self@.len(),
                self@ == filed(old(self)@, old(self).unique(), all.take(walk.index() as int)),
        {
            let ghost done = all.take(walk.index() + 1);
            assert(done.drop_last() =~= all.take(walk.index() as int));
            assert(done.last() == entry);
            let (score, agent) = entry;
            self.insert(score, agent);
        }
        assert(all.take(all.len() as int) =~= all);
    }

    /// Offers each entry of `agents` to the population, in ascending order
    /// of the keys.
    pub fn set_agents(&mut self, agents: BTreeMap<Score, Agent<Gene>>)
        requires
            old(self).well_formed(),
        ensures
            final(self).well_formed(),
            final(self).unique() == old(self).unique(),
            final(self)@ == merged(
                old(self)@,
                old(self).unique(),
                agents@,
                ranking_of(agents@.dom()),
            ),
            final(self).unique() ==> final(self).register().len() == final(self)@.len(),
    {
        let mut source = agents;
        let keys = ranked_keys(&source);
        let mut next: usize = 0;
        proof {
            lemma_register_counts(*self);
            assert forall|key: Score| source@.contains_key(key) <==> listed_from(keys@, 0, key) by {
                if keys@.contains(key) {
                    let i = choose|i: int| 0 <= i < keys@.len() && keys@[i] == key;
                    assert(listed_from(keys@, 0, key));
                }
            }
            assert(keys@.take(0) =~= Seq::<Score>::empty());
        }
        while next < keys.len()
            invariant
                next <= keys.len(),
                self.well_formed(),
                self.unique() == old(self).unique(),
                self.unique() ==> self.register().len() == self@.len(),
                is_ranking(keys@, agents@.dom()),
                forall|key: Score| source@.contains_key(key) <==> listed_from(keys@, next as int, key),
                forall|key: Score| source@.contains_key(key) ==> source@[key] == agents@[key],
                self@ == merged(old(self)@, old(self).unique(), agents@, keys@.take(next as int)),
            decreases keys.len() - next,
        {
            let score = keys[next];
            let ghost before = source@;
            assert(listed_from(keys@, next as int, score));
            let taken = source.remove(&score);
            match taken {
                Some(agent) => {
                    self.insert(score, agent);
                },
                None => {},
            }
            proof {
                let done = keys@.take(next + 1);
                assert(done.drop_last() =~= keys@.take(next as int));
                assert(done.last() == score);
                assert forall|key: Score| source@.contains_key(key) <==> listed_from(
                    keys@,
                    next + 1,
                    key,
                ) by {
                    if source@.contains_key(key) {
                        assert(before.contains_key(key));
                        assert(key != score);
                        assert(listed_from(keys@, next as int, key));
                        let i = choose|i: int| next <= i < keys@.len() && keys@[i] == key;
                        assert(i != next);
                        assert(next + 1 <= i < keys@.len() && keys@[i] == key);
                    }
                    if listed_from(keys@, next + 1, key) {
                        let i = choose|i: int| next + 1 <= i < keys@.len() && keys@[i] == key;
                        assert(keys@[next as int] < keys@[i]);
                        assert(next <= i < keys@.len() && keys@[i] == key);
                        assert(listed_from(keys@, next as int, key));
                    }
                }
            }
            next = next + 1;
        }
        proof {
            assert(keys@.take(keys@.len() as int) =~= keys@);
            crate::ranking::lemma_ranking_of(keys@, agents@.dom());
        }
    }

    /// Removes every agent with a key below `score`.
    pub fn cull_all_below(&mut self, score: Score)
        requires
            old(self).well_formed(),
        ensures
            final(self).well_formed(),
            final(self).unique() == old(self).unique(),
            final(self)@ == at_or_above(old(self)@, score),
            final(self).unique() ==> final(self).register().len() == final(self)@.len(),
    {
        self.cull(score, true);
    }

    /// Removes every agent with a key of `score` or more.
    pub fn cull_all_above(&mut self, score: Score)
        requires
            old(self).well_formed(),
        ensures
            final(self).well_formed(),
            final(self).unique() == old(self).unique(),
            final(self)@ == below(old(self)@, score),
            final(self).unique() ==> final(self).register().len() == final(self)@.len(),
    {
        self.cull(score, false);
    }

    /// Removes the agents on one side of `score`: those below it where
    /// `lower` is set, the others where it is not.
    fn cull(&mut self, score: Score, lower: bool)
        requires
            old(self).well_formed(),
        ensures
            final(self).well_formed(),
            final(self).unique() == old(self).unique(),
            final(self)@ == if lower {
                at_or_above(old(self)@, score)
            } else {
                below(old(self)@, score)
            },
            final(self).unique() ==> final(self).register().len() == final(self)@.len(),
    {
        let keys = ranked_keys(&self.agents);
        let mut next: usize = 0;
        proof {
            lemma_register_counts(*self);
            assert forall|key: Score| self@.contains_key(key) <==> listed_from(keys@, 0, key) by {
                if keys@.contains(key) {
                    let i = choose|i: int| 0 <= i < keys@.len() && keys@[i] == key;
                    assert(listed_from(keys@, 0, key));
                }
            }
        }
        while next < keys.len()
            invariant
                next <= keys.len(),
                self.well_formed(),
                self.unique() == old(self).unique(),
                self.unique() ==> self.register().len() == self@.len(),
                is_ranking(keys@, old(self)@.dom()),
                forall|key: Score|
                    self@.contains_key(key) <==> old(self)@.contains_key(key) && ((key < score)
                        != lower || listed_from(keys@, next as int, key)),
                forall|key: Score| self@.contains_key(key) ==> self@[key] == old(self)@[key],
            decreases keys.len() - next,
        {
            let key = keys[next];
            let ghost before = self@;
            if (key < score) == lower {
                self.remove(key);
            }
            proof {
                assert forall|other: Score|
                    self@.contains_key(other) <==> old(self)@.contains_key(other) && ((other
                        < score) != lower || listed_from(keys@, next + 1, other)) by {
                    if listed_from(keys@, next + 1, other) {
                        let i = choose|i: int| next + 1 <= i < keys@.len() && keys@[i] == other;
                        assert(keys@[next as int] < keys@[i]);
                        assert(next <= i < keys@.len() && keys@[i] == other);
                        assert(listed_from(keys@, next as int, other));
                    }
                    if listed_from(keys@, next as int, other) && other != key {
                        let i = choose|i: int| next <= i < keys@.len() && keys@[i] == other;
                        assert(next + 1 <= i < keys@.len() && keys@[i] == other);
                    }
                }
            }
            next = next + 1;
        }
        proof {
            assert forall|key: Score| !listed_from(keys@, next as int, key) by {}
            assert forall|key: Score|
                self@.contains_key(key) <==> old(self)@.contains_key(key) && (key < score) != lower by {
                assert(!listed_from(keys@, next as int, key));
            }
            if lower {
                assert(self@ =~= at_or_above(old(self)@, score));
            } else {
                assert(self@ =~= below(old(self)@, score));
            }
        }
    }

    /// The highest rank key of the population; none where it is empty.
    pub fn highest_score(&self) -> (highest: Option<Score>)
        ensures
            highest is None <==> self@.len() == 0,
            highest matches Some(top) ==> self@.contains_key(top) && forall|key: Score|
                self@.contains_key(key) ==> key <= top,
    {
        let scores = self.get_scores();
        if scores.len() == 0 {
            None
        } else {
            let top = scores[scores.len() - 1];
            proof {
                assert(scores@.contains(top));
                assert forall|key: Score| self@.contains_key(key) implies key <= top by {
                    assert(scores@.contains(key));
                    let i = choose|i: int| 0 <= i < scores@.len() && scores@[i] == key;
                    if i < scores@.len() - 1 {
                        assert(scores@[i] < scores@[scores@.len() - 1]);
                    }
                }
            }
            Some(top)
        }
    }

    /// One of the rank keys of the population, each as likely as any other.
    pub fn get_random_score(&self) -> (score: Score)
        requires
            self@.len() > 0,
        ensures
            self@.contains_key(score),
    {
        let mut rng = rand::thread_rng();
        let scores = self.get_scores();
        let drawn = random_index(&mut rng, scores.len());
        assert(scores@.contains(scores@[drawn as int]));
        scores[drawn]
    }
}

impl<Gene: Clone> Clone for Population<Gene> {
    /// A population of the same agents under the same keys.
    fn clone(&self) -> (copy: Self)
        ensures
            copy@ == self@,
            copy.unique() == self.unique(),
            self.well_formed() ==> copy.well_formed(),
    {
        let agents = self.agents.clone();
        let mut register: HashSet<u64> = HashSet::new();
        if self.unique_agents {
            let keys = ranked_keys(&agents);
            let mut next: usize = 0;
            while next < keys.len()
                invariant
                    next <= keys@.len(),
                    is_ranking(keys@, agents@.dom()),
                    forall|hash: u64|
                        register@.contains(hash) <==> exists|i: int|
                            0 <= i < next && #[trigger] agents@[keys@[i]].hash_value() == hash,
                decreases keys@.len() - next,
            {
                let key = keys[next];
                assert(keys@.contains(key));
                let ghost before = register@;
                match agents.get(&key) {
                    Some(agent) => {
                        register.insert(agent.get_hash());
                    },
                    None => {},
                }
                proof {
                    assert forall|hash: u64|
                        register@.contains(hash) <==> exists|i: int|
                            0 <= i < next + 1 && #[trigger] agents@[keys@[i]].hash_value()
                                == hash by {
                        if before.contains(hash) {
                            let i = choose|i: int|
                                0 <= i < next && #[trigger] agents@[keys@[i]].hash_value() == hash;
                            assert(0 <= i < next + 1 && agents@[keys@[i]].hash_value() == hash);
                        }
                        if hash == agents@[key].hash_value() {
                            assert(agents@[keys@[next as int]].hash_value() == hash);
                        }
                        if exists|i: int|
                            0 <= i < next + 1 && #[trigger] agents@[keys@[i]].hash_value() == hash {
                            let i = choose|i: int|
                                0 <= i < next + 1 && #[trigger] agents@[keys@[i]].hash_value()
                                    == hash;
                            if i < next {
                                assert(before.contains(hash));
                            }
                        }
                    }
                }
                next = next + 1;
            }
            proof {
                let image = |score: Score| agents@[score].hash_value();
                assert forall|hash: u64| register@.contains(hash) <==> hashes(agents@).contains(
                    hash,
                ) by {
                    if register@.contains(hash) {
                        let i = choose|i: int|
                            0 <= i < next && #[trigger] agents@[keys@[i]].hash_value() == hash;
                        assert(keys@.contains(keys@[i]));
                        assert(agents@.dom().contains(keys@[i]) && image(keys@[i]) == hash);
                    }
                    if hashes(agents@).contains(hash) {
                        let key = choose|key: Score| agents@.dom().contains(key) && image(key) == hash;
                        assert(keys@.contains(key));
                        let i = choose|i: int| 0 <= i < keys@.len() && keys@[i] == key;
                        assert(agents@[keys@[i]].hash_value() == hash);
                    }
                }
                assert(register@ =~= hashes(agents@));
            }
        }
        Population { agents, register, unique_agents: self.unique_agents }
    }
}

/// Where a score settles: on no key above it; on a free key or on 0; and on
/// the highest such key, every key between being taken.
pub proof fn lemma_settled<Gene>(agents: Map<Score, Agent<Gene>>, score: Score)
    ensures
        settled(agents, score) <= score,
        settled(agents, score) == 0 || !agents.contains_key(settled(agents, score)),
        forall|key: Score| settled(agents, score) < key <= score ==> agents.contains_key(key),
    decreases score,
{
    if score != 0 && agents.contains_key(score) {
        lemma_settled(agents, (score - 1) as Score);
    }
}

/// Filing takes no key away and adds no more keys than there are entries;
/// and each agent that is found afterwards was there before under its key,
/// or is one of the entries under its score.
pub proof fn lemma_filed<Gene>(
    agents: Map<Score, Agent<Gene>>,
    unique: bool,
    entries: Seq<(Score, Agent<Gene>)>,
)
    requires
        agents.dom().finite(),
    ensures
        filed(agents, unique, entries).dom().finite(),
        agents.dom().subset_of(filed(agents, unique, entries).dom()),
        filed(agents, unique, entries).len() <= agents.len() + entries.len(),
        forall|key: Score| #[trigger]
            filed(agents, unique, entries).contains_key(key) ==> (agents.contains_key(key)
                && filed(agents, unique, entries)[key] == agents[key]) || entries.contains(
                (key, filed(agents, unique, entries)[key]),
            ),
    decreases entries.len(),
{
    if entries.len() > 0 {
        let earlier = entries.drop_last();
        let last = entries.last();
        lemma_filed(agents, unique, earlier);
        let before = filed(agents, unique, earlier);
        let after = filed(agents, unique, entries);
        assert(after == inserted(before, unique, last.0, last.1));
        assert forall|key: Score| #[trigger] after.contains_key(key) implies (agents.contains_key(
            key,
        ) && after[key] == agents[key]) || entries.contains((key, after[key])) by {
            if before.contains_key(key) && after[key] == before[key] {
                if earlier.contains((key, before[key])) {
                    let i = choose|i: int| 0 <= i < earlier.len() && earlier[i] == (key, before[key]);
                    assert(entries[i] == (key, after[key]));
                }
            } else {
                assert(key == last.0 && after[key] == last.1);
                assert(entries[entries.len() - 1] == (key, after[key]));
            }
        }
    }
}

/// A cull of what lies below `score` and a cull of the rest part the
/// agents at `score`: every agent is in exactly one of the two parts, the
/// keys of the one are all below `score`, those of the other are not.
pub proof fn lemma_culls_partition<Gene>(agents: Map<Score, Agent<Gene>>, score: Score)
    ensures
        below(agents, score).dom().disjoint(at_or_above(agents, score).dom()),
        below(agents, score).dom().union(at_or_above(agents, score).dom()) == agents.dom(),
        forall|key: Score| #[trigger] below(agents, score).contains_key(key) ==> key < score,
        forall|key: Score| #[trigger] at_or_above(agents, score).contains_key(key) ==> key >= score,
        below(agents, score).union_prefer_right(at_or_above(agents, score)) == agents,
{
    assert(below(agents, score).dom().union(at_or_above(agents, score).dom()) =~= agents.dom());
    assert(below(agents, score).union_prefer_right(at_or_above(agents, score)) =~= agents);
}

/// In a population of unique genomes the register holds one hash for each
/// agent.
pub proof fn lemma_register_counts<Gene>(population: Population<Gene>)
    requires
        population.well_formed(),
    ensures
        population.register().finite(),
        population.unique() ==> population.register().len() == population@.len(),
        !population.unique() ==> population.register().len() == 0,
{
    if population.unique() {
        let agents = population@;
        let image = |score: Score| agents[score].hash_value();
        assert(vstd::relations::injective_on(image, agents.dom())) by {
            assert forall|first: Score, second: Score|
                agents.dom().contains(first) && agents.dom().contains(second) && #[trigger] image(
                    first,
                ) == #[trigger] image(second) implies first == second by {
                if first != second {
                    assert(agents[first].hash_value() != agents[second].hash_value());
                }
            }
        }
        lemma_map_size(agents.dom(), hashes(agents), image);
    }
}

/// The hashes after an accepted insertion: those of the other entries, and
/// the new one.
proof fn lemma_hashes_insert<Gene>(agents: Map<Score, Agent<Gene>>, score: Score, agent: Agent<Gene>)
    requires
        distinct(agents),
        !hashes(agents).contains(agent.hash_value()),
    ensures
        distinct(agents.insert(score, agent)),
        hashes(agents.insert(score, agent)) == if agents.contains_key(score) {
            hashes(agents).remove(agents[score].hash_value()).insert(agent.hash_value())
        } else {
            hashes(agents).insert(agent.hash_value())
        },
{
    let after = agents.insert(score, agent);
    let image = |key: Score| agents[key].hash_value();
    let image_after = |key: Score| after[key].hash_value();
    assert forall|key: Score| agents.contains_key(key) implies image(key) != agent.hash_value() by {
        assert(agents.dom().contains(key));
        assert(hashes(agents).contains(image(key)));
    }
    let expected = if agents.contains_key(score) {
        hashes(agents).remove(agents[score].hash_value()).insert(agent.hash_value())
    } else {
        hashes(agents).insert(agent.hash_value())
    };
    assert forall|hash: u64| hashes(after).contains(hash) <==> expected.contains(hash) by {
        if hashes(after).contains(hash) {
            let key = choose|key: Score| after.dom().contains(key) && image_after(key) == hash;
            if key != score {
                assert(agents.dom().contains(key) && image(key) == hash);
                assert(hashes(agents).contains(hash));
            }
        }
        if expected.contains(hash) {
            if hash == agent.hash_value() {
                assert(after.dom().contains(score) && image_after(score) == hash);
            } else {
                let key = choose|key: Score| agents.dom().contains(key) && image(key) == hash;
                assert(key != score);
                assert(after.dom().contains(key) && image_after(key) == hash);
            }
        }
    }
    assert(hashes(after) =~= expected);
}

/// The hashes after a removal: those of the other entries.
proof fn lemma_hashes_remove<Gene>(agents: Map<Score, Agent<Gene>>, score: Score)
    requires
        distinct(agents),
        agents.contains_key(score),
    ensures
        distinct(agents.remove(score)),
        hashes(agents.remove(score)) == hashes(agents).remove(agents[score].hash_value()),
{
    let after = agents.remove(score);
    let image = |key: Score| agents[key].hash_value();
    let image_after = |key: Score| after[key].hash_value();
    let expected = hashes(agents).remove(agents[score].hash_value());
    assert forall|hash: u64| hashes(after).contains(hash) <==> expected.contains(hash) by {
        if hashes(after).contains(hash) {
            let key = choose|key: Score| after.dom().contains(key) && image_after(key) == hash;
            assert(agents.dom().contains(key) && image(key) == hash);
            assert(hashes(agents).contains(hash));
        }
        if expected.contains(hash) {
            let key = choose|key: Score| agents.dom().contains(key) && image(key) == hash;
            assert(key != score);
            assert(after.dom().contains(key) && image_after(key) == hash);
        }
    }
    assert(hashes(after) =~= expected);
}

} // verus!
