//! Selections and operations: the steps of one generation.

use crate::agent::is_copy;
use crate::agent::is_mutant;
use crate::agent::is_offspring;
use crate::agent::mate;
use crate::agent::Agent;
use crate::fitness::draw_jitter;
use crate::fitness::covers;
use crate::fitness::givable;
use crate::fitness::is_rank_key;
use crate::fitness::keeps_word;
use crate::fitness::jittered;
use crate::fitness::learned;
use crate::fitness::lemma_learned_grows;
use crate::fitness::offset_score;
use crate::fitness::remembered;
use crate::fitness::screen_one;
use crate::fitness::survivors;
use crate::fitness::ScoreError;
use crate::fitness::ScoreProvider as Scoring;
use crate::population::at_or_above;
use crate::population::below;
use crate::population::filed;
use crate::population::lemma_filed;
use crate::population::Population;
use crate::random::RandomGene;
use crate::random::random_index;
use crate::ranking::is_ranking;
use crate::ranking::lemma_ranking_exists;
use crate::ranking::lemma_ranking_length;
use crate::ranking::ranked_keys;
use crate::ranking::ranking_of;
use rand::rngs::ThreadRng;
use std::collections::BTreeMap;
use std::collections::HashMap;
use std::hash::Hash;
use std::marker::PhantomData;
use vstd::prelude::*;

verus! {

/// The integer by which agents are ranked and found.
pub type Score = u64;

/// What an operation does to the agents it selects.
#[derive(Clone, Copy)]
pub enum OperationType {
    Mutate,
    Crossover,
    Cull,
}

/// Which agents of a population a selection takes.
#[derive(Clone, Copy)]
pub enum SelectionType {
    RandomAny,
    HighestScore,
    LowestScore,
}

/// A share of a population: so many parts of so many.
#[derive(Clone, Copy)]
pub struct Proportion {
    numerator: u64,
    denominator: u64,
}

impl Proportion {
    #[verifier::type_invariant]
    spec fn divisible(self) -> bool {
        self.denominator > 0
    }

    /// The number of parts taken.
    pub closed spec fn parts(&self) -> nat {
        self.numerator as nat
    }

    /// The number of parts that make the whole. It is never 0 in a
    /// proportion that `new` has made.
    pub closed spec fn whole(&self) -> nat {
        self.denominator as nat
    }

    /// `numerator` parts of `denominator`.
    pub closed spec fn ratio(numerator: u64, denominator: u64) -> Proportion {
        Proportion { numerator, denominator }
    }

    /// What a ratio is made of.
    pub proof fn lemma_ratio(numerator: u64, denominator: u64)
        ensures
            Self::ratio(numerator, denominator).parts() == numerator,
            Self::ratio(numerator, denominator).whole() == denominator,
    {
    }

    /// `numerator` parts of `denominator`; none where `denominator` is 0.
    pub fn new(numerator: u64, denominator: u64) -> (proportion: Option<Proportion>)
        ensures
            denominator == 0 <==> proportion is None,
            proportion matches Some(made) ==> made == Self::ratio(numerator, denominator)
                && made.parts() == numerator && made.whole() == denominator,
    {
        if denominator == 0 {
            None
        } else {
            Some(Proportion { numerator, denominator })
        }
    }

    /// `percent` parts of a hundred.
    pub open spec fn percent(percent: u64) -> Proportion {
        Self::ratio(percent, 100)
    }

    /// `percent` parts of a hundred.
    pub fn from_percent(percent: u64) -> (proportion: Proportion)
        ensures
            proportion == Self::percent(percent),
            proportion.parts() == percent,
            proportion.whole() == 100,
    {
        Proportion { numerator: percent, denominator: 100 }
    }

    /// The share of `population` that this proportion stands for, rounded
    /// down, and no more than a count can hold.
    pub fn of(&self, population: usize) -> (count: usize)
        ensures
            count == share(population as nat, *self),
            self.whole() > 0,
    {
        proof {
            use_type_invariant(self);
        }
        let numerator: u128 = self.numerator as u128;
        let denominator: u128 = self.denominator as u128;
        let whole: u128 = population as u128;
        assert(whole * numerator <= 0xffff_ffff_ffff_ffff * 0xffff_ffff_ffff_ffff) by (nonlinear_arith)
            requires
                whole <= 0xffff_ffff_ffff_ffff,
                numerator <= 0xffff_ffff_ffff_ffff,
        ;
        let exact: u128 = whole * numerator / denominator;
        if exact > usize::MAX as u128 {
            usize::MAX
        } else {
            exact as usize
        }
    }
}

/// The share of a population of `population` agents that `rate` stands for,
/// rounded down, and no more than a count can hold.
pub open spec fn share(population: nat, rate: Proportion) -> nat {
    let exact = population * rate.parts() / rate.whole();
    if exact > usize::MAX {
        usize::MAX as nat
    } else {
        exact
    }
}

/// The number of agents that a selection takes from `population` agents:
/// all of them where they are fewer than the preferred minimum; else the
/// share that `rate` stands for, and at least the preferred minimum.
pub open spec fn selected_count(population: nat, rate: Proportion, preferred_minimum: nat) -> nat {
    if population < preferred_minimum {
        population
    } else if share(population, rate) < preferred_minimum {
        preferred_minimum
    } else {
        share(population, rate)
    }
}

/// The number of agents that a selection takes from `population` agents.
pub fn rate_to_number(population: usize, rate: Proportion, preferred_minimum: usize) -> (number:
    usize)
    ensures
        number == selected_count(population as nat, rate, preferred_minimum as nat),
        rate.whole() > 0,
{
    proof {
        use_type_invariant(&rate);
    }
    if population < preferred_minimum {
        return population;
    }
    let number = rate.of(population);
    if number < preferred_minimum {
        return preferred_minimum;
    }
    number
}

/// The `count` highest members of `domain`, or all of them where they are
/// fewer.
pub open spec fn highest_keys(domain: Set<Score>, count: nat) -> Set<Score> {
    let ranking = ranking_of(domain);
    if count >= ranking.len() {
        ranking.to_set()
    } else {
        ranking.skip(ranking.len() - count).to_set()
    }
}

/// The `count` lowest members of `domain`, or all of them where they are
/// fewer.
pub open spec fn lowest_keys(domain: Set<Score>, count: nat) -> Set<Score> {
    let ranking = ranking_of(domain);
    if count >= ranking.len() {
        ranking.to_set()
    } else {
        ranking.take(count as int).to_set()
    }
}

/// The highest keys are members of the set, as many as are asked for or
/// all, and every member that is not among them is below each of them.
pub proof fn lemma_highest_keys(domain: Set<Score>, count: nat)
    requires
        domain.finite(),
    ensures
        highest_keys(domain, count).subset_of(domain),
        highest_keys(domain, count).len() == if count >= domain.len() {
            domain.len()
        } else {
            count
        },
        forall|taken: Score, left: Score|
            highest_keys(domain, count).contains(taken) && domain.contains(left) && !highest_keys(
                domain,
                count,
            ).contains(left) ==> left < taken,
{
    let ranking = ranking_of(domain);
    lemma_ranking_exists(domain);
    lemma_ranking_length(ranking, domain);
    if count >= ranking.len() {
        assert(ranking.to_set() =~= domain);
    } else {
        let from = ranking.len() - count;
        let top = ranking.skip(from);
        assert forall|i: int, j: int| 0 <= i < top.len() && 0 <= j < top.len() && i != j implies top[i]
            != top[j] by {
            assert(top[i] == ranking[from + i]);
            assert(top[j] == ranking[from + j]);
        }
        top.unique_seq_to_set();
        assert forall|taken: Score| top.to_set().contains(taken) implies domain.contains(taken) by {
            let i = choose|i: int| 0 <= i < top.len() && top[i] == taken;
            assert(ranking[from + i] == taken);
            assert(ranking.contains(taken));
        }
        assert forall|taken: Score, left: Score|
            top.to_set().contains(taken) && domain.contains(left) && !top.to_set().contains(
                left,
            ) implies left < taken by {
            let i = choose|i: int| 0 <= i < top.len() && top[i] == taken;
            assert(ranking.contains(left));
            let j = choose|j: int| 0 <= j < ranking.len() && ranking[j] == left;
            if j >= from {
                assert(top[j - from] == left);
                assert(top.contains(left));
            }
            assert(ranking[j] < ranking[from + i]);
        }
    }
}

/// The lowest keys are members of the set, as many as are asked for or all,
/// and every member that is not among them is above each of them.
pub proof fn lemma_lowest_keys(domain: Set<Score>, count: nat)
    requires
        domain.finite(),
    ensures
        lowest_keys(domain, count).subset_of(domain),
        lowest_keys(domain, count).len() == if count >= domain.len() {
            domain.len()
        } else {
            count
        },
        forall|taken: Score, left: Score|
            lowest_keys(domain, count).contains(taken) && domain.contains(left) && !lowest_keys(
                domain,
                count,
            ).contains(left) ==> taken < left,
{
    let ranking = ranking_of(domain);
    lemma_ranking_exists(domain);
    lemma_ranking_length(ranking, domain);
    if count >= ranking.len() {
        assert(ranking.to_set() =~= domain);
    } else {
        let bottom = ranking.take(count as int);
        assert forall|i: int, j: int|
            0 <= i < bottom.len() && 0 <= j < bottom.len() && i != j implies bottom[i]
            != bottom[j] by {
            assert(bottom[i] == ranking[i]);
            assert(bottom[j] == ranking[j]);
        }
        bottom.unique_seq_to_set();
        assert forall|taken: Score| bottom.to_set().contains(taken) implies domain.contains(
            taken,
        ) by {
            let i = choose|i: int| 0 <= i < bottom.len() && bottom[i] == taken;
            assert(ranking[i] == taken);
            assert(ranking.contains(taken));
        }
        assert forall|taken: Score, left: Score|
            bottom.to_set().contains(taken) && domain.contains(left) && !bottom.to_set().contains(
                left,
            ) implies taken < left by {
            let i = choose|i: int| 0 <= i < bottom.len() && bottom[i] == taken;
            assert(ranking.contains(left));
            let j = choose|j: int| 0 <= j < ranking.len() && ranking[j] == left;
            if j < count {
                assert(bottom[j] == left);
                assert(bottom.contains(left));
            }
            assert(ranking[i] < ranking[j]);
        }
    }
}

/// The members of `ranking` at the positions `picks`.
pub open spec fn picked_keys(ranking: Seq<Score>, picks: Seq<int>) -> Set<Score> {
    Set::new(|key: Score| exists|i: int| 0 <= i < picks.len() && #[trigger] ranking[picks[i]] == key)
}

/// Whether `picks` are `count` draws from the positions below `choices`.
pub open spec fn is_draw(picks: Seq<int>, count: nat, choices: nat) -> bool {
    &&& picks.len() == count
    &&& forall|i: int| 0 <= i < picks.len() ==> 0 <= #[trigger] picks[i] < choices
}

/// Whether `subset` holds, under the keys `keys`, the agents that `agents`
/// holds under them.
pub open spec fn is_subset_at<Gene>(
    subset: Map<Score, &Agent<Gene>>,
    agents: Map<Score, Agent<Gene>>,
    keys: Set<Score>,
) -> bool {
    &&& subset.dom() == keys
    &&& forall|key: Score| #[trigger]
        subset.contains_key(key) ==> agents.contains_key(key) && *subset[key] == agents[key]
}

/// The agents of `agents` under the keys `keys[from..to]`.
fn agents_at<'a, Gene>(
    agents: &'a BTreeMap<Score, Agent<Gene>>,
    keys: &Vec<Score>,
    from: usize,
    to: usize,
) -> (subset: BTreeMap<Score, &'a Agent<Gene>>)
    requires
        from <= to <= keys@.len(),
        forall|i: int| 0 <= i < keys@.len() ==> agents@.contains_key(#[trigger] keys@[i]),
    ensures
        is_subset_at(subset@, agents@, keys@.subrange(from as int, to as int).to_set()),
{
    let mut subset: BTreeMap<Score, &'a Agent<Gene>> = BTreeMap::new();
    let mut next = from;
    proof {
        assert(keys@.subrange(from as int, next as int).to_set() =~= Set::<Score>::empty());
        assert(subset@.dom() =~= Set::<Score>::empty());
    }
    while next < to
        invariant
            from <= next <= to <= keys@.len(),
            forall|i: int| 0 <= i < keys@.len() ==> agents@.contains_key(#[trigger] keys@[i]),
            is_subset_at(subset@, agents@, keys@.subrange(from as int, next as int).to_set()),
        decreases to - next,
    {
        let key = keys[next];
        let agent = agents.get(&key);
        match agent {
            Some(found) => {
                subset.insert(key, found);
            },
            None => {},
        }
        proof {
            let before = keys@.subrange(from as int, next as int);
            let after = keys@.subrange(from as int, next + 1);
            assert(after =~= before.push(key));
            assert forall|other: Score| after.contains(other) <==> before.contains(other) || other
                == key by {
                if before.contains(other) {
                    let i = choose|i: int| 0 <= i < before.len() && before[i] == other;
                    assert(after[i] == other);
                }
                if other == key {
                    assert(after[after.len() - 1] == key);
                }
            }
            assert(after.to_set() =~= before.to_set().insert(key));
        }
        next = next + 1;
    }
    subset
}

/// The highest-keyed agents of `agents`, as many as the rate and the
/// preferred minimum ask for.
pub fn get_highest_scored_agents<Gene>(
    agents: &BTreeMap<Score, Agent<Gene>>,
    rate: Proportion,
    preferred_minimum: usize,
) -> (subset: BTreeMap<Score, &Agent<Gene>>)
    ensures
        is_subset_at(
            subset@,
            agents@,
            highest_keys(
                agents@.dom(),
                selected_count(agents@.len(), rate, preferred_minimum as nat),
            ),
        ),
{
    let number = rate_to_number(agents.len(), rate, preferred_minimum);
    let keys = ranked_keys(agents);
    let keys_len = keys.len();
    let from = if number >= keys_len {
        0
    } else {
        keys_len - number
    };
    proof {
        assert forall|i: int| 0 <= i < keys@.len() implies agents@.contains_key(
            #[trigger] keys@[i],
        ) by {
            assert(keys@.contains(keys@[i]));
        }
        assert(keys@.subrange(0, keys_len as int) =~= keys@);
    }
    agents_at(agents, &keys, from, keys_len)
}

/// The lowest-keyed agents of `agents`, as many as the rate and the
/// preferred minimum ask for.
pub fn get_lowest_scored_agents<Gene>(
    agents: &BTreeMap<Score, Agent<Gene>>,
    rate: Proportion,
    preferred_minimum: usize,
) -> (subset: BTreeMap<Score, &Agent<Gene>>)
    ensures
        is_subset_at(
            subset@,
            agents@,
            lowest_keys(
                agents@.dom(),
                selected_count(agents@.len(), rate, preferred_minimum as nat),
            ),
        ),
{
    let number = rate_to_number(agents.len(), rate, preferred_minimum);
    let keys = ranked_keys(agents);
    let keys_len = keys.len();
    let to = if number >= keys_len {
        keys_len
    } else {
        number
    };
    proof {
        assert forall|i: int| 0 <= i < keys@.len() implies agents@.contains_key(
            #[trigger] keys@[i],
        ) by {
            assert(keys@.contains(keys@[i]));
        }
        assert(keys@.subrange(0, keys_len as int) =~= keys@);
    }
    agents_at(agents, &keys, 0, to)
}

/// Whether `subset` is what `count` draws from the keys of `agents` can
/// select: for some draws, it holds the agents under the keys drawn. A key
/// drawn twice is held once.
pub open spec fn is_random_subset<Gene>(
    subset: Map<Score, &Agent<Gene>>,
    agents: Map<Score, Agent<Gene>>,
    count: nat,
) -> bool {
    exists|picks: Seq<int>|
        is_draw(picks, count, agents.len()) && is_subset_at(
            subset,
            agents,
            #[trigger] picked_keys(ranking_of(agents.dom()), picks),
        )
}

/// Nothing is selected from an empty population.
pub proof fn lemma_nothing_from_nothing(rate: Proportion, preferred_minimum: nat)
    requires
        rate.whole() > 0,
    ensures
        selected_count(0, rate, preferred_minimum) == 0,
{
    assert(0 * rate.parts() / rate.whole() == 0) by (nonlinear_arith)
        requires
            rate.whole() > 0,
    ;
}

/// Agents of `agents` under keys drawn at random, each key as likely as any
/// other at each draw. The draws are as many as the rate and the preferred
/// minimum ask for.
pub fn get_random_subset<Gene>(
    agents: &BTreeMap<Score, Agent<Gene>>,
    rate: Proportion,
    preferred_minimum: usize,
) -> (subset: BTreeMap<Score, &Agent<Gene>>)
    ensures
        is_random_subset(
            subset@,
            agents@,
            selected_count(agents@.len(), rate, preferred_minimum as nat),
        ),
{
    let count = agents.len();
    let number = rate_to_number(count, rate, preferred_minimum);
    let mut rng = rand::thread_rng();
    let mut picks: Vec<usize> = Vec::new();
    let mut drawn: usize = 0;
    proof {
        lemma_nothing_from_nothing(rate, preferred_minimum as nat);
    }
    while drawn < number
        invariant
            drawn <= number,
            number > 0 ==> count > 0,
            count == agents@.len(),
            picks@.len() == drawn,
            forall|i: int| 0 <= i < picks@.len() ==> #[trigger] picks@[i] < count,
        decreases number - drawn,
    {
        let pick = random_index(&mut rng, count);
        picks.push(pick);
        drawn = drawn + 1;
    }
    let subset = subset_of_picks(agents, &picks);
    assert(is_draw(positions(picks@), number as nat, agents@.len()));
    subset
}

/// The positions `picks` as integers.
pub open spec fn positions(picks: Seq<usize>) -> Seq<int> {
    picks.map_values(|pick: usize| pick as int)
}

/// The agents of `agents` at the positions `picks` of the ranking of their
/// keys. A position picked twice gives its agent once.
pub fn subset_of_picks<'a, Gene>(agents: &'a BTreeMap<Score, Agent<Gene>>, picks: &Vec<usize>) -> (subset:
    BTreeMap<Score, &'a Agent<Gene>>)
    requires
        forall|i: int| 0 <= i < picks@.len() ==> #[trigger] picks@[i] < agents@.len(),
    ensures
        is_subset_at(subset@, agents@, picked_keys(ranking_of(agents@.dom()), positions(picks@))),
{
    let keys = ranked_keys(agents);
    let mut subset: BTreeMap<Score, &'a Agent<Gene>> = BTreeMap::new();
    let ghost mut taken: Seq<int> = Seq::empty();
    let mut next: usize = 0;
    proof {
        assert(picked_keys(keys@, taken) =~= Set::<Score>::empty());
        assert(subset@.dom() =~= Set::<Score>::empty());
    }
    while next < picks.len()
        invariant
            next <= picks@.len(),
            keys@ == ranking_of(agents@.dom()),
            keys@.len() == agents@.len(),
            is_ranking(keys@, agents@.dom()),
            forall|i: int| 0 <= i < picks@.len() ==> #[trigger] picks@[i] < agents@.len(),
            taken.len() == next,
            forall|i: int| 0 <= i < next ==> #[trigger] taken[i] == picks@[i],
            is_subset_at(subset@, agents@, picked_keys(keys@, taken)),
        decreases picks@.len() - next,
    {
        let pick = picks[next];
        let key = keys[pick];
        assert(keys@.contains(key));
        let agent = agents.get(&key);
        match agent {
            Some(found) => {
                subset.insert(key, found);
            },
            None => {},
        }
        proof {
            let longer = taken.push(pick as int);
            assert forall|other: Score|
                picked_keys(keys@, longer).contains(other) <==> picked_keys(keys@, taken).contains(
                    other,
                ) || other == key by {
                if picked_keys(keys@, longer).contains(other) {
                    let i = choose|i: int|
                        0 <= i < longer.len() && #[trigger] keys@[longer[i]] == other;
                    if i < taken.len() {
                        assert(keys@[taken[i]] == other);
                    }
                }
                if picked_keys(keys@, taken).contains(other) {
                    let i = choose|i: int| 0 <= i < taken.len() && #[trigger] keys@[taken[i]] == other;
                    assert(keys@[longer[i]] == other);
                }
                if other == key {
                    assert(keys@[longer[taken.len() as int]] == other);
                }
            }
            assert(picked_keys(keys@, longer) =~= picked_keys(keys@, taken).insert(key));
            taken = longer;
        }
        next = next + 1;
    }
    assert(taken =~= positions(picks@));
    subset
}

/// Which agents of a population to take: how they are chosen, what share of
/// the population, and how many at least.
#[derive(Clone, Copy)]
pub struct Selection {
    selection_type: SelectionType,
    proportion: Proportion,
    preferred_minimum: usize,
}

impl Selection {
    /// How the agents are chosen.
    pub closed spec fn kind(&self) -> SelectionType {
        self.selection_type
    }

    /// The share of the population that is taken.
    pub closed spec fn rate(&self) -> Proportion {
        self.proportion
    }

    /// The number of agents that is taken at least, where there are as many.
    pub closed spec fn minimum(&self) -> nat {
        self.preferred_minimum as nat
    }

    /// The number of agents that this selection takes from `population`
    /// agents.
    pub open spec fn count_of(&self, population: nat) -> nat {
        selected_count(population, self.rate(), self.minimum())
    }

    /// Whether `subset` is what this selection can take from `agents`.
    pub open spec fn selects<Gene>(
        &self,
        agents: Map<Score, Agent<Gene>>,
        subset: Map<Score, &Agent<Gene>>,
    ) -> bool {
        match self.kind() {
            SelectionType::RandomAny => is_random_subset(subset, agents, self.count_of(agents.len())),
            SelectionType::HighestScore => is_subset_at(
                subset,
                agents,
                highest_keys(agents.dom(), self.count_of(agents.len())),
            ),
            SelectionType::LowestScore => is_subset_at(
                subset,
                agents,
                lowest_keys(agents.dom(), self.count_of(agents.len())),
            ),
        }
    }

    /// A selection of the share `proportion` of a population, and of at least
    /// `preferred_minimum` agents where there are as many.
    pub fn with_values(
        selection_type: SelectionType,
        proportion: Proportion,
        preferred_minimum: usize,
    ) -> (selection: Self)
        ensures
            selection.kind() == selection_type,
            selection.rate() == proportion,
            selection.minimum() == preferred_minimum,
    {
        Selection { selection_type, proportion, preferred_minimum }
    }

    /// A selection that takes at least one agent.
    pub fn new(selection_type: SelectionType, proportion: Proportion) -> (selection: Self)
        ensures
            selection.kind() == selection_type,
            selection.rate() == proportion,
            selection.minimum() == 1,
    {
        Selection { selection_type, proportion, preferred_minimum: 1 }
    }

    /// How the agents are chosen.
    pub fn selection_type(&self) -> (selection_type: SelectionType)
        ensures
            selection_type == self.kind(),
    {
        self.selection_type
    }

    /// The share of the population that is taken.
    pub fn proportion(&self) -> (proportion: Proportion)
        ensures
            proportion == self.rate(),
    {
        self.proportion
    }

    /// The number of agents that is taken at least, where there are as many.
    pub fn preferred_minimum(&self) -> (preferred_minimum: usize)
        ensures
            preferred_minimum == self.minimum(),
    {
        self.preferred_minimum
    }

    /// The agents that this selection takes from `population`.
    pub fn agents<'a, Gene>(&self, population: &'a Population<Gene>) -> (subset: BTreeMap<
        Score,
        &'a Agent<Gene>,
    >)
        ensures
            self.selects(population@, subset@),
    {
        match self.selection_type {
            SelectionType::RandomAny => get_random_subset(
                population.get_agents(),
                self.proportion,
                self.preferred_minimum,
            ),
            SelectionType::HighestScore => get_highest_scored_agents(
                population.get_agents(),
                self.proportion,
                self.preferred_minimum,
            ),
            SelectionType::LowestScore => get_lowest_scored_agents(
                population.get_agents(),
                self.proportion,
                self.preferred_minimum,
            ),
        }
    }

    /// The number of agents that this selection takes from `population`.
    pub fn count<Gene>(&self, population: &Population<Gene>) -> (count: usize)
        ensures
            count == self.count_of(population@.len()),
    {
        rate_to_number(population.len(), self.proportion, self.preferred_minimum)
    }
}

/// Whether `child` can come of `parent` in a mutate step: a mutation of a
/// clone, or, of a parent without genes, a clone.
pub open spec fn is_variant<Gene: Clone>(parent: Seq<Gene>, child: Seq<Gene>) -> bool {
    if parent.len() == 0 {
        child.len() == 0
    } else {
        is_mutant(parent, child)
    }
}

/// Whether `child` can come, in a mutate step, of the agent that `agents`
/// holds under `key`.
pub open spec fn is_variant_at<Gene: Clone>(
    agents: Map<Score, &Agent<Gene>>,
    key: Score,
    child: Agent<Gene>,
) -> bool {
    agents.contains_key(key) && is_variant((*agents[key])@, child@)
}

/// One mutated clone of each of `agents`, in ascending order of their keys.
/// An agent without genes has nothing to mutate and is only cloned.
pub fn get_mutated_agents<Gene>(agents: BTreeMap<Score, &Agent<Gene>>) -> (children: Vec<
    Agent<Gene>,
>) where Gene: RandomGene + Clone + Hash
    ensures
        children@.len() == agents@.len(),
        forall|i: int|
            0 <= i < children@.len() ==> is_variant_at(
                agents@,
                ranking_of(agents@.dom())[i],
                #[trigger] children@[i],
            ),
{
    let keys = ranked_keys(&agents);
    let mut children: Vec<Agent<Gene>> = Vec::new();
    let mut next: usize = 0;
    while next < keys.len()
        invariant
            next <= keys@.len(),
            keys@ == ranking_of(agents@.dom()),
            is_ranking(keys@, agents@.dom()),
            keys@.len() == agents@.len(),
            children@.len() == next,
            forall|i: int|
                0 <= i < children@.len() ==> is_variant_at(
                    agents@,
                    keys@[i],
                    #[trigger] children@[i],
                ),
        decreases keys@.len() - next,
    {
        let key = keys[next];
        assert(keys@.contains(key));
        let found = agents.get(&key);
        match found {
            Some(agent) => {
                let mut clone = (*agent).clone();
                let ghost copied = clone@;
                if clone.get_genes().len() > 0 {
                    clone.mutate();
                    proof {
                        let steps = choose|steps: Seq<crate::agent::Perturbation<Gene>>| #[trigger]
                            crate::agent::is_mutation(copied, steps, clone@);
                        assert(is_copy(agents@[key]@, copied) && crate::agent::is_mutation(
                            copied,
                            steps,
                            clone@,
                        ));
                    }
                }
                children.push(clone);
            },
            None => {
                children.push(Agent::new(0));
            },
        }
        next = next + 1;
    }
    children
}

/// Whether `copy` is a clone of `agent`: clones of its genes under its hash.
pub open spec fn is_clone<Gene: Clone>(agent: Agent<Gene>, copy: Agent<Gene>) -> bool {
    is_copy(agent@, copy@) && copy.hash_value() == agent.hash_value()
}

/// Whether `pair` holds clones of the agents of `agents` under `first` and
/// `second`, and these differ in their genomes.
pub open spec fn is_pair_at<Gene: Clone>(
    agents: Map<Score, &Agent<Gene>>,
    first: Score,
    second: Score,
    pair: (Agent<Gene>, Agent<Gene>),
) -> bool {
    &&& agents.contains_key(first)
    &&& agents.contains_key(second)
    &&& is_clone(*agents[first], pair.0)
    &&& is_clone(*agents[second], pair.1)
    &&& pair.0.hash_value() != pair.1.hash_value()
}

/// Whether `pair` holds clones of two agents of `agents` that differ in
/// their genomes.
pub open spec fn is_pair_of<Gene: Clone>(
    agents: Map<Score, &Agent<Gene>>,
    pair: (Agent<Gene>, Agent<Gene>),
) -> bool {
    exists|first: Score, second: Score| #[trigger] is_pair_at(agents, first, second, pair)
}

/// Pairs of parents drawn from `agents`: as many draws as there are agents,
/// each of two agents, with replacement. A draw of two agents of the same
/// genome gives no pair; the others give their pairs in the order of the
/// draws.
pub fn create_random_pairs<Gene>(agents: BTreeMap<Score, &Agent<Gene>>) -> (pairs: Vec<
    (Agent<Gene>, Agent<Gene>),
>) where Gene: Clone
    ensures
        pairs@.len() <= agents@.len(),
        forall|i: int| 0 <= i < pairs@.len() ==> is_pair_of(agents@, #[trigger] pairs@[i]),
        exists|draws: Seq<(usize, usize)>|
            draws.len() == agents@.len() && #[trigger] is_pairing(agents@, draws, pairs@),
{
    let mut rng = rand::thread_rng();
    let count = agents.len();
    let mut draws: Vec<(usize, usize)> = Vec::new();
    let mut drawn: usize = 0;
    while drawn < count
        invariant
            drawn <= count,
            count == agents@.len(),
            draws@.len() == drawn,
            forall|i: int| 0 <= i < draws@.len() ==> in_reach(#[trigger] draws@[i], count as nat),
        decreases count - drawn,
    {
        let one = random_index(&mut rng, count);
        let two = random_index(&mut rng, count);
        draws.push((one, two));
        drawn = drawn + 1;
    }
    pair_up(&agents, &draws)
}

/// Whether `child` can come of a crossover of the pair at `position`.
pub open spec fn is_child_at<Gene: Clone>(
    pairs: Seq<(Agent<Gene>, Agent<Gene>)>,
    position: int,
    child: Agent<Gene>,
) -> bool {
    0 <= position < pairs.len() && is_offspring(pairs[position].0@, pairs[position].1@, child@)
}

/// Whether `child` can come of a crossover of one of `pairs`.
pub open spec fn is_child_of<Gene: Clone>(
    pairs: Seq<(Agent<Gene>, Agent<Gene>)>,
    child: Agent<Gene>,
) -> bool {
    exists|position: int| #[trigger] is_child_at(pairs, position, child)
}

/// One child of each pair, with the rank key that `score_provider` gives
/// it. A child that cannot be scored is dropped; the others stay in the
/// order of their pairs.
pub fn create_children_from_crossover<Gene, Data, SP>(
    pairs: Vec<(Agent<Gene>, Agent<Gene>)>,
    data: &Data,
    score_provider: &mut SP,
) -> (children: Vec<(Score, Agent<Gene>)>) where Gene: Clone + Hash, SP: Scoring<Gene, Data>
    ensures
        children@.len() <= pairs@.len(),
        forall|i: int| 0 <= i < children@.len() ==> is_child_of(pairs@, (#[trigger] children@[i]).1),
        forall|i: int|
            0 <= i < children@.len() ==> old(score_provider).can_give((#[trigger] children@[i]).0),
        exists|offspring: Seq<Agent<Gene>>, verdicts: Seq<bool>| #[trigger]
            is_brood(
                pairs@,
                offspring,
                verdicts,
                children@,
                old(score_provider).always_scores(),
                givable(*old(score_provider)),
            ),
        old(score_provider).always_scores() ==> children@.len() == pairs@.len(),
        keeps_word(*old(score_provider), *final(score_provider)),
{
    let mut children: Vec<(Score, Agent<Gene>)> = Vec::new();
    let mut rng = rand::thread_rng();
    let mut next: usize = 0;
    let ghost sure = old(score_provider).always_scores();
    let ghost can = givable(*old(score_provider));
    let ghost mut offspring: Seq<Agent<Gene>> = Seq::empty();
    let ghost mut verdicts: Seq<bool> = Seq::empty();
    assert(children@.map_values(|entry: (Score, Agent<Gene>)| entry.1) =~= survivors(
        offspring,
        verdicts,
    ));
    while next < pairs.len()
        invariant
            next <= pairs@.len(),
            children@.len() <= next,
            sure == old(score_provider).always_scores(),
            can == givable(*old(score_provider)),
            sure ==> children@.len() == next,
            keeps_word(*old(score_provider), *score_provider),
            forall|i: int|
                0 <= i < children@.len() ==> is_child_of(pairs@, (#[trigger] children@[i]).1),
            offspring.len() == next,
            forall|i: int| 0 <= i < offspring.len() ==> is_child_at(pairs@, i, #[trigger] offspring[i]),
            is_scoring(offspring, verdicts, children@, sure, can),
        decreases pairs@.len() - next,
    {
        let child = mate(&pairs[next].0, &pairs[next].1);
        assert(is_child_at(pairs@, next as int, child));
        let ghost born = offspring.push(child);
        let ghost before = children@;
        proof {
            assert(born.drop_last() =~= offspring);
            assert forall|i: int| 0 <= i < born.len() implies is_child_at(
                pairs@,
                i,
                #[trigger] born[i],
            ) by {
                if i < offspring.len() {
                    assert(born[i] == offspring[i]);
                }
            }
        }
        match score_provider.get_score(&child, data, &mut rng) {
            Ok(score_index) => {
                children.push((score_index, child));
                proof {
                    assert(verdicts.push(true).drop_last() =~= verdicts);
                    verdicts = verdicts.push(true);
                    assert(children@.map_values(|entry: (Score, Agent<Gene>)| entry.1)
                        =~= before.map_values(|entry: (Score, Agent<Gene>)| entry.1).push(child));
                    assert forall|i: int| 0 <= i < children@.len() implies is_child_of(
                        pairs@,
                        (#[trigger] children@[i]).1,
                    ) by {
                        if i < before.len() {
                            assert(children@[i] == before[i]);
                        }
                    }
                    assert forall|i: int| 0 <= i < children@.len() implies can(
                        (#[trigger] children@[i]).0,
                    ) by {
                        if i < before.len() {
                            assert(children@[i] == before[i]);
                        }
                    }
                    assert forall|i: int| 0 <= i < verdicts.len() && sure implies #[trigger] verdicts[i] by {
                        if i < verdicts.len() - 1 {
                            assert(verdicts[i] == verdicts.drop_last()[i]);
                        }
                    }
                }
            },
            Err(_) => {
                proof {
                    assert(verdicts.push(false).drop_last() =~= verdicts);
                    verdicts = verdicts.push(false);
                }
            },
        }
        proof {
            offspring = born;
        }
        next = next + 1;
    }
    assert(is_brood(pairs@, offspring, verdicts, children@, sure, can));
    children
}

/// Whether `children` are what comes of `pairs` when each pair has the
/// child at its position in `offspring`, and the children whose verdict is
/// to stay are scored by a provider that is `sure` to score and `can` give
/// certain keys: they are those children, in their order, each with its
/// score.
pub open spec fn is_brood<Gene: Clone>(
    pairs: Seq<(Agent<Gene>, Agent<Gene>)>,
    offspring: Seq<Agent<Gene>>,
    verdicts: Seq<bool>,
    children: Seq<(Score, Agent<Gene>)>,
    sure: bool,
    can: spec_fn(Score) -> bool,
) -> bool {
    &&& offspring.len() == pairs.len()
    &&& forall|i: int| 0 <= i < offspring.len() ==> is_child_at(pairs, i, #[trigger] offspring[i])
    &&& is_scoring(offspring, verdicts, children, sure, can)
}

/// Whether both positions of `draw` are below `count`.
pub open spec fn in_reach(draw: (usize, usize), count: nat) -> bool {
    draw.0 < count && draw.1 < count
}

/// Whether a draw gives a pair: whether the agents at its two positions of
/// the ranking differ in their genomes.
pub open spec fn gives_pair<Gene>(
    agents: Map<Score, &Agent<Gene>>,
    ranking: Seq<Score>,
    draw: (usize, usize),
) -> bool {
    agents[ranking[draw.0 as int]].hash_value() != agents[ranking[draw.1 as int]].hash_value()
}

/// The draws of `draws` that give a pair, in their order.
pub open spec fn pairing_draws<Gene>(
    agents: Map<Score, &Agent<Gene>>,
    ranking: Seq<Score>,
    draws: Seq<(usize, usize)>,
) -> Seq<(usize, usize)>
    decreases draws.len(),
{
    if draws.len() == 0 {
        Seq::empty()
    } else {
        let earlier = pairing_draws(agents, ranking, draws.drop_last());
        if gives_pair(agents, ranking, draws.last()) {
            earlier.push(draws.last())
        } else {
            earlier
        }
    }
}

/// Whether `pairs` are what the draws `draws` make of `agents`: every draw
/// is of two positions of the ranking, and each draw that gives a pair gives,
/// in its turn, clones of the two agents at its positions.
pub open spec fn is_pairing<Gene: Clone>(
    agents: Map<Score, &Agent<Gene>>,
    draws: Seq<(usize, usize)>,
    pairs: Seq<(Agent<Gene>, Agent<Gene>)>,
) -> bool {
    let ranking = ranking_of(agents.dom());
    let kept = pairing_draws(agents, ranking, draws);
    &&& forall|i: int| 0 <= i < draws.len() ==> in_reach(#[trigger] draws[i], agents.len())
    &&& pairs.len() == kept.len()
    &&& forall|i: int|
        0 <= i < pairs.len() ==> is_pair_at(
            agents,
            ranking[kept[i].0 as int],
            ranking[kept[i].1 as int],
            #[trigger] pairs[i],
        )
}

/// The pairs that the draws `draws` make of `agents`: for each draw of two
/// agents that differ in their genomes, clones of the two.
pub fn pair_up<Gene>(agents: &BTreeMap<Score, &Agent<Gene>>, draws: &Vec<(usize, usize)>) -> (pairs:
    Vec<(Agent<Gene>, Agent<Gene>)>) where Gene: Clone
    requires
        forall|i: int| 0 <= i < draws@.len() ==> in_reach(#[trigger] draws@[i], agents@.len()),
    ensures
        pairs@.len() <= draws@.len(),
        forall|i: int| 0 <= i < pairs@.len() ==> is_pair_of(agents@, #[trigger] pairs@[i]),
        is_pairing(agents@, draws@, pairs@),
{
    let keys = ranked_keys(agents);
    let mut pairs: Vec<(Agent<Gene>, Agent<Gene>)> = Vec::new();
    let ghost mut kept: Seq<(usize, usize)> = Seq::empty();
    let mut next: usize = 0;
    assert(draws@.take(0) =~= Seq::<(usize, usize)>::empty());
    while next < draws.len()
        invariant
            next <= draws@.len(),
            keys@ == ranking_of(agents@.dom()),
            keys@.len() == agents@.len(),
            is_ranking(keys@, agents@.dom()),
            forall|i: int| 0 <= i < draws@.len() ==> in_reach(#[trigger] draws@[i], agents@.len()),
            kept == pairing_draws(agents@, keys@, draws@.take(next as int)),
            pairs@.len() == kept.len(),
            pairs@.len() <= next,
            forall|i: int| 0 <= i < pairs@.len() ==> is_pair_of(agents@, #[trigger] pairs@[i]),
            forall|i: int|
                0 <= i < pairs@.len() ==> is_pair_at(
                    agents@,
                    keys@[kept[i].0 as int],
                    keys@[kept[i].1 as int],
                    #[trigger] pairs@[i],
                ),
        decreases draws@.len() - next,
    {
        let draw = draws[next];
        assert(in_reach(draws@[next as int], agents@.len()));
        let one_key = keys[draw.0];
        let two_key = keys[draw.1];
        assert(keys@.contains(one_key));
        assert(keys@.contains(two_key));
        let ghost done = draws@.take(next + 1);
        proof {
            assert(done.drop_last() =~= draws@.take(next as int));
            assert(done.last() == draw);
        }
        let one_agent = agents.get(&one_key);
        let two_agent = agents.get(&two_key);
        match (one_agent, two_agent) {
            (Some(one), Some(two)) => {
                if !one.has_same_genes(two) {
                    let first = (*one).clone();
                    let second = (*two).clone();
                    let ghost before = pairs@;
                    let ghost earlier = kept;
                    pairs.push((first, second));
                    proof {
                        kept = earlier.push(draw);
                        assert(is_pair_at(agents@, one_key, two_key, (first, second)));
                        assert forall|i: int| 0 <= i < pairs@.len() implies is_pair_of(
                            agents@,
                            #[trigger] pairs@[i],
                        ) by {
                            if i < before.len() {
                                assert(pairs@[i] == before[i]);
                            }
                        }
                        assert forall|i: int| 0 <= i < pairs@.len() implies is_pair_at(
                            agents@,
                            keys@[kept[i].0 as int],
                            keys@[kept[i].1 as int],
                            #[trigger] pairs@[i],
                        ) by {
                            if i < before.len() {
                                assert(pairs@[i] == before[i]);
                                assert(kept[i] == earlier[i]);
                            }
                        }
                    }
                }
            },
            _ => {},
        }
        next = next + 1;
    }
    assert(draws@.take(draws@.len() as int) =~= draws@);
    pairs
}

/// Draws select no more keys than there are draws.
pub proof fn lemma_picked_keys_bound(ranking: Seq<Score>, picks: Seq<int>)
    ensures
        picked_keys(ranking, picks).finite(),
        picked_keys(ranking, picks).len() <= picks.len(),
    decreases picks.len(),
{
    if picks.len() == 0 {
        assert(picked_keys(ranking, picks) =~= Set::<Score>::empty());
    } else {
        let earlier = picks.drop_last();
        let key = ranking[picks.last()];
        lemma_picked_keys_bound(ranking, earlier);
        assert forall|other: Score|
            picked_keys(ranking, picks).contains(other) <==> picked_keys(ranking, earlier).contains(
                other,
            ) || other == key by {
            if picked_keys(ranking, picks).contains(other) {
                let i = choose|i: int| 0 <= i < picks.len() && #[trigger] ranking[picks[i]] == other;
                if i < earlier.len() {
                    assert(ranking[earlier[i]] == other);
                }
            }
            if picked_keys(ranking, earlier).contains(other) {
                let i = choose|i: int|
                    0 <= i < earlier.len() && #[trigger] ranking[earlier[i]] == other;
                assert(ranking[picks[i]] == other);
            }
            if other == key {
                assert(ranking[picks[picks.len() - 1]] == other);
            }
        }
        assert(picked_keys(ranking, picks) =~= picked_keys(ranking, earlier).insert(key));
    }
}

/// What a selection takes are agents of the population, under their keys,
/// and no more of them than the selection counts.
pub proof fn lemma_selection_bounds<Gene>(
    selection: Selection,
    agents: Map<Score, Agent<Gene>>,
    subset: Map<Score, &Agent<Gene>>,
)
    requires
        selection.selects(agents, subset),
    ensures
        subset.dom().finite(),
        subset.len() <= selection.count_of(agents.len()),
        forall|key: Score| #[trigger]
            subset.contains_key(key) ==> agents.contains_key(key) && *subset[key] == agents[key],
{
    let count = selection.count_of(agents.len());
    let ranking = ranking_of(agents.dom());
    match selection.kind() {
        SelectionType::RandomAny => {
            let picks = choose|picks: Seq<int>|
                is_draw(picks, count, agents.len()) && is_subset_at(
                    subset,
                    agents,
                    #[trigger] picked_keys(ranking, picks),
                );
            lemma_picked_keys_bound(ranking, picks);
        },
        SelectionType::HighestScore => {
            if count >= ranking.len() {
                ranking.lemma_cardinality_of_set();
            } else {
                ranking.skip(ranking.len() - count).lemma_cardinality_of_set();
            }
        },
        SelectionType::LowestScore => {
            if count >= ranking.len() {
                ranking.lemma_cardinality_of_set();
            } else {
                ranking.take(count as int).lemma_cardinality_of_set();
            }
        },
    }
}

/// Whether a mutate step can turn `before` into `after` in this way: the
/// selection takes `subset`; each agent of it, in ascending order of the
/// keys, has the variant at its position in `children`; the children whose
/// verdict is to stay are scored by a provider that is `sure` to score and
/// `can` give certain keys, which gives `entries`; and these are filed.
pub open spec fn is_mutate_step<Gene: Clone>(
    before: Map<Score, Agent<Gene>>,
    unique: bool,
    selection: Selection,
    sure: bool,
    can: spec_fn(Score) -> bool,
    subset: Map<Score, &Agent<Gene>>,
    children: Seq<Agent<Gene>>,
    verdicts: Seq<bool>,
    entries: Seq<(Score, Agent<Gene>)>,
    after: Map<Score, Agent<Gene>>,
) -> bool {
    &&& selection.selects(before, subset)
    &&& children.len() == subset.len()
    &&& forall|i: int|
        0 <= i < children.len() ==> is_variant_at(
            subset,
            ranking_of(subset.dom())[i],
            #[trigger] children[i],
        )
    &&& is_scoring(children, verdicts, entries, sure, can)
    &&& after == filed(before, unique, entries)
}

/// Whether a mutate step on what `selection` takes can turn `before` into
/// `after`, the children being scored by a provider that is `sure` to score
/// and `can` give certain keys.
pub open spec fn mutates<Gene: Clone>(
    selection: Selection,
    before: Map<Score, Agent<Gene>>,
    unique: bool,
    sure: bool,
    can: spec_fn(Score) -> bool,
    after: Map<Score, Agent<Gene>>,
) -> bool {
    exists|
        subset: Map<Score, &Agent<Gene>>,
        children: Seq<Agent<Gene>>,
        verdicts: Seq<bool>,
        entries: Seq<(Score, Agent<Gene>)>,
    | #[trigger]
        is_mutate_step(
            before,
            unique,
            selection,
            sure,
            can,
            subset,
            children,
            verdicts,
            entries,
            after,
        )
}

/// Whether `entries` holds, in their order, the agents of `agents` whose
/// verdict is to stay, each with a score of a provider that is `sure` to
/// score and `can` give certain keys: where it is sure, every agent stays;
/// and every score is a key that it can give.
pub open spec fn is_scoring<Gene>(
    agents: Seq<Agent<Gene>>,
    verdicts: Seq<bool>,
    entries: Seq<(Score, Agent<Gene>)>,
    sure: bool,
    can: spec_fn(Score) -> bool,
) -> bool {
    &&& verdicts.len() == agents.len()
    &&& entries.map_values(|entry: (Score, Agent<Gene>)| entry.1) == survivors(agents, verdicts)
    &&& sure ==> forall|i: int| 0 <= i < verdicts.len() ==> #[trigger] verdicts[i]
    &&& forall|i: int| 0 <= i < entries.len() ==> can((#[trigger] entries[i]).0)
}

/// A scoring by a provider that says more of itself is one by a provider
/// that says less.
pub proof fn lemma_scoring_weakens<Gene>(
    agents: Seq<Agent<Gene>>,
    verdicts: Seq<bool>,
    entries: Seq<(Score, Agent<Gene>)>,
    sure: bool,
    can: spec_fn(Score) -> bool,
    lesser_sure: bool,
    lesser_can: spec_fn(Score) -> bool,
)
    requires
        is_scoring(agents, verdicts, entries, sure, can),
        covers(sure, can, lesser_sure, lesser_can),
    ensures
        is_scoring(agents, verdicts, entries, lesser_sure, lesser_can),
{
    assert forall|i: int| 0 <= i < entries.len() implies lesser_can((#[trigger] entries[i]).0) by {
        assert(can(entries[i].0));
    }
}

/// Each of `agents` that can be scored, in their order, with the rank key
/// that `score_provider` gives it.
pub fn score_agents<Gene, Data, SP>(
    agents: Vec<Agent<Gene>>,
    data: &Data,
    score_provider: &mut SP,
) -> (entries: Vec<(Score, Agent<Gene>)>) where SP: Scoring<Gene, Data>
    ensures
        entries@.len() <= agents@.len(),
        forall|i: int| 0 <= i < entries@.len() ==> agents@.contains((#[trigger] entries@[i]).1),
        forall|i: int|
            0 <= i < entries@.len() ==> old(score_provider).can_give((#[trigger] entries@[i]).0),
        exists|verdicts: Seq<bool>| #[trigger]
            is_scoring(
                agents@,
                verdicts,
                entries@,
                old(score_provider).always_scores(),
                givable(*old(score_provider)),
            ),
        old(score_provider).always_scores() ==> entries@.len() == agents@.len(),
        keeps_word(*old(score_provider), *final(score_provider)),
{
    let mut rng = rand::thread_rng();
    let mut entries: Vec<(Score, Agent<Gene>)> = Vec::new();
    let ghost all = agents@;
    let ghost sure = old(score_provider).always_scores();
    let ghost can = givable(*old(score_provider));
    let ghost mut verdicts: Seq<bool> = Seq::empty();
    assert(entries@.map_values(|entry: (Score, Agent<Gene>)| entry.1) =~= survivors(
        all.take(0),
        verdicts,
    ));
    for agent in walk: agents
        invariant
            walk.seq() == all,
            entries@.len() <= walk.index(),
            sure == old(score_provider).always_scores(),
            can == givable(*old(score_provider)),
            sure ==> entries@.len() == walk.index(),
            keeps_word(*old(score_provider), *score_provider),
            forall|i: int| 0 <= i < entries@.len() ==> all.contains((#[trigger] entries@[i]).1),
            is_scoring(all.take(walk.index() as int), verdicts, entries@, sure, can),
    {
        let ghost earlier = entries@;
        let ghost done = all.take(walk.index() + 1);
        proof {
            assert(done.drop_last() =~= all.take(walk.index() as int));
            assert(done.last() == agent);
            assert(all.contains(all[walk.index() as int]));
        }
        match score_provider.get_score(&agent, data, &mut rng) {
            Ok(score_index) => {
                entries.push((score_index, agent));
                proof {
                    assert(verdicts.push(true).drop_last() =~= verdicts);
                    verdicts = verdicts.push(true);
                    assert(entries@.map_values(|entry: (Score, Agent<Gene>)| entry.1)
                        =~= earlier.map_values(|entry: (Score, Agent<Gene>)| entry.1).push(agent));
                    assert forall|i: int| 0 <= i < entries@.len() implies all.contains(
                        (#[trigger] entries@[i]).1,
                    ) by {
                        if i < earlier.len() {
                            assert(entries@[i] == earlier[i]);
                        }
                    }
                    assert forall|i: int| 0 <= i < entries@.len() implies can(
                        (#[trigger] entries@[i]).0,
                    ) by {
                        if i < earlier.len() {
                            assert(entries@[i] == earlier[i]);
                        }
                    }
                    assert forall|i: int| 0 <= i < verdicts.len() && sure implies #[trigger] verdicts[i] by {
                        if i < verdicts.len() - 1 {
                            assert(verdicts[i] == verdicts.drop_last()[i]);
                        }
                    }
                }
            },
            Err(_) => {
                proof {
                    assert(verdicts.push(false).drop_last() =~= verdicts);
                    verdicts = verdicts.push(false);
                }
            },
        }
    }
    assert(all.take(all.len() as int) =~= all);
    entries
}

/// Files a mutated clone of each selected agent under the rank key that
/// `score_provider` gives it. A clone that cannot be scored is dropped.
pub fn mutate_agents<Gene, Data, SP>(
    population: Population<Gene>,
    selection: Selection,
    data: &Data,
    score_provider: &mut SP,
) -> (result: Population<Gene>) where Gene: RandomGene + Clone + Hash, SP: Scoring<Gene, Data>
    requires
        population.well_formed(),
    ensures
        result.well_formed(),
        result.unique() == population.unique(),
        result.unique() ==> result.register().len() == result@.len(),
        mutates(
            selection,
            population@,
            population.unique(),
            old(score_provider).always_scores(),
            givable(*old(score_provider)),
            result@,
        ),
        keeps_word(*old(score_provider), *final(score_provider)),
        population@.dom().subset_of(result@.dom()),
        result@.len() <= population@.len() + selection.count_of(population@.len()),
{
    let mut population = population;
    let ghost before = population@;
    let subset = selection.agents(&population);
    let ghost selected = subset@;
    let children = get_mutated_agents(subset);
    let ghost all = children@;
    let entries = score_agents(children, data, score_provider);
    let ghost filing = entries@;
    population.file(entries);
    proof {
        lemma_selection_bounds(selection, before, selected);
        lemma_filed(before, population.unique(), filing);
        let sure = old(score_provider).always_scores();
        let can = givable(*old(score_provider));
        let verdicts = choose|verdicts: Seq<bool>| #[trigger]
            is_scoring(all, verdicts, filing, sure, can);
        assert(is_mutate_step(
            before,
            population.unique(),
            selection,
            sure,
            can,
            selected,
            all,
            verdicts,
            filing,
            population@,
        ));
    }
    population
}

/// Whether a crossover step can turn `before` into `after` in this way:
/// the selection takes `subset`; as many draws as it has agents give
/// `pairs`; each pair has the child at its position in `offspring`; the
/// children whose verdict is to stay are scored by a provider that is
/// `sure` to score and `can` give certain keys, which gives `entries`; and
/// these are filed.
pub open spec fn is_crossover_step<Gene: Clone>(
    before: Map<Score, Agent<Gene>>,
    unique: bool,
    selection: Selection,
    sure: bool,
    can: spec_fn(Score) -> bool,
    subset: Map<Score, &Agent<Gene>>,
    draws: Seq<(usize, usize)>,
    pairs: Seq<(Agent<Gene>, Agent<Gene>)>,
    offspring: Seq<Agent<Gene>>,
    verdicts: Seq<bool>,
    entries: Seq<(Score, Agent<Gene>)>,
    after: Map<Score, Agent<Gene>>,
) -> bool {
    &&& selection.selects(before, subset)
    &&& draws.len() == subset.len()
    &&& is_pairing(subset, draws, pairs)
    &&& is_brood(pairs, offspring, verdicts, entries, sure, can)
    &&& after == filed(before, unique, entries)
}

/// Whether a crossover step on what `selection` takes can turn `before`
/// into `after`, the children being scored by a provider that is `sure` to
/// score and `can` give certain keys.
pub open spec fn crosses<Gene: Clone>(
    selection: Selection,
    before: Map<Score, Agent<Gene>>,
    unique: bool,
    sure: bool,
    can: spec_fn(Score) -> bool,
    after: Map<Score, Agent<Gene>>,
) -> bool {
    exists|
        subset: Map<Score, &Agent<Gene>>,
        draws: Seq<(usize, usize)>,
        pairs: Seq<(Agent<Gene>, Agent<Gene>)>,
        offspring: Seq<Agent<Gene>>,
        verdicts: Seq<bool>,
        entries: Seq<(Score, Agent<Gene>)>,
    | #[trigger]
        is_crossover_step(
            before,
            unique,
            selection,
            sure,
            can,
            subset,
            draws,
            pairs,
            offspring,
            verdicts,
            entries,
            after,
        )
}

/// Breeds children of pairs drawn from the selected agents and files each
/// under the rank key that `score_provider` gives it. The draws are as many
/// as the agents selected.
pub fn crossover_agents<Gene, Data, SP>(
    population: Population<Gene>,
    selection: Selection,
    data: &Data,
    score_provider: &mut SP,
) -> (result: Population<Gene>) where Gene: Clone + Hash, SP: Scoring<Gene, Data>
    requires
        population.well_formed(),
    ensures
        result.well_formed(),
        result.unique() == population.unique(),
        result.unique() ==> result.register().len() == result@.len(),
        crosses(
            selection,
            population@,
            population.unique(),
            old(score_provider).always_scores(),
            givable(*old(score_provider)),
            result@,
        ),
        keeps_word(*old(score_provider), *final(score_provider)),
        population@.dom().subset_of(result@.dom()),
        result@.len() <= population@.len() + selection.count_of(population@.len()),
{
    let mut population = population;
    let ghost before = population@;
    let subset = selection.agents(&population);
    let ghost selected = subset@;
    let pairs = create_random_pairs(subset);
    let ghost parents = pairs@;
    let children = create_children_from_crossover(pairs, data, score_provider);
    let ghost filing = children@;
    population.file(children);
    proof {
        lemma_selection_bounds(selection, before, selected);
        lemma_filed(before, population.unique(), filing);
        let draws = choose|draws: Seq<(usize, usize)>|
            draws.len() == selected.len() && #[trigger] is_pairing(selected, draws, parents);
        let sure = old(score_provider).always_scores();
        let can = givable(*old(score_provider));
        let (offspring, verdicts) = choose|offspring: Seq<Agent<Gene>>, verdicts: Seq<bool>| #[trigger]
            is_brood(parents, offspring, verdicts, filing, sure, can);
        assert(is_crossover_step(
            before,
            population.unique(),
            selection,
            sure,
            can,
            selected,
            draws,
            parents,
            offspring,
            verdicts,
            filing,
            population@,
        ));
    }
    population
}

/// What is left of `agents` after a cull by `kind` that counts `number`
/// agents. Where the count covers all of them, all of them stay. Else the
/// key at position `number` of the ranking is the boundary: a cull of the
/// lowest removes what lies below it, a cull of the highest removes the
/// boundary and what lies above it.
pub open spec fn culled<Gene>(
    agents: Map<Score, Agent<Gene>>,
    kind: SelectionType,
    number: nat,
) -> Map<Score, Agent<Gene>> {
    if number >= agents.len() {
        agents
    } else {
        let boundary = ranking_of(agents.dom())[number as int];
        match kind {
            SelectionType::LowestScore => at_or_above(agents, boundary),
            SelectionType::HighestScore => below(agents, boundary),
            SelectionType::RandomAny => agents,
        }
    }
}

/// Removes agents from one end of the ranking. A cull has no meaning for a
/// random selection, which is therefore not admitted.
pub fn cull_agents<Gene>(population: Population<Gene>, selection: Selection) -> (result: Population<
    Gene,
>)
    requires
        population.well_formed(),
        !(selection.kind() is RandomAny),
    ensures
        result.well_formed(),
        result.unique() == population.unique(),
        result.unique() ==> result.register().len() == result@.len(),
        result@ == culled(population@, selection.kind(), selection.count_of(population@.len())),
{
    let mut population = population;
    proof {
        crate::population::lemma_register_counts(population);
    }
    let keys = population.get_scores();
    let cull_number = selection.count(&population);
    if cull_number >= keys.len() {
        return population;
    }
    match selection.selection_type() {
        SelectionType::LowestScore => population.cull_all_below(keys[cull_number]),
        SelectionType::HighestScore => population.cull_all_above(keys[cull_number]),
        SelectionType::RandomAny => {},
    }
    population
}

/// Removes the lowest-keyed agents, as many as the rate and the preferred
/// minimum ask for.
pub fn cull_lowest_agents<Gene>(
    population: Population<Gene>,
    rate: Proportion,
    preferred_minimum: usize,
) -> (result: Population<Gene>)
    requires
        population.well_formed(),
    ensures
        result.well_formed(),
        result.unique() == population.unique(),
        result.unique() ==> result.register().len() == result@.len(),
        result@ == culled(
            population@,
            SelectionType::LowestScore,
            selected_count(population@.len(), rate, preferred_minimum as nat),
        ),
{
    let mut population = population;
    proof {
        crate::population::lemma_register_counts(population);
    }
    let keys = population.get_scores();
    let cull_number = rate_to_number(keys.len(), rate, preferred_minimum);
    if cull_number >= keys.len() {
        return population;
    }
    population.cull_all_below(keys[cull_number]);
    population
}

/// One step of a generation: what is done, to which agents, and by how
/// many threads the work may be done.
pub struct Operation<Gene, Data> {
    selection: Selection,
    operation_type: OperationType,
    thread_count: u8,
    gene: PhantomData<Gene>,
    data: PhantomData<Data>,
}

impl<Gene, Data> Clone for Operation<Gene, Data> {
    /// The same operation once more.
    fn clone(&self) -> (copy: Self)
        ensures
            copy.kind() == self.kind(),
            copy.chooses() == self.chooses(),
            copy.threads() == self.threads(),
    {
        Operation {
            selection: self.selection,
            operation_type: self.operation_type,
            thread_count: self.thread_count,
            gene: PhantomData,
            data: PhantomData,
        }
    }
}

impl<Gene, Data> Operation<Gene, Data> {
    /// What the operation does.
    pub closed spec fn kind(&self) -> OperationType {
        self.operation_type
    }

    /// The agents that the operation is done to.
    pub closed spec fn chooses(&self) -> Selection {
        self.selection
    }

    /// The number of threads among which the work may be shared. What an
    /// operation makes of a population does not depend on it.
    pub closed spec fn threads(&self) -> u8 {
        self.thread_count
    }

    /// Whether the operation can be run: every one can but a cull of a
    /// random selection.
    pub open spec fn supported(&self) -> bool {
        !(self.kind() is Cull && self.chooses().kind() is RandomAny)
    }

    /// An operation for one thread.
    pub fn with_values(selection: Selection, operation_type: OperationType) -> (operation: Self)
        ensures
            operation.kind() == operation_type,
            operation.chooses() == selection,
            operation.threads() == 1,
    {
        Operation { selection, operation_type, thread_count: 1, gene: PhantomData, data: PhantomData }
    }

    /// An operation for one thread.
    pub fn new(operation_type: OperationType, selection: Selection) -> (operation: Self)
        ensures
            operation.kind() == operation_type,
            operation.chooses() == selection,
            operation.threads() == 1,
    {
        Operation { selection, operation_type, thread_count: 1, gene: PhantomData, data: PhantomData }
    }

    /// An operation whose work may be shared among `thread_count` threads.
    pub fn with_threads(
        operation_type: OperationType,
        selection: Selection,
        thread_count: u8,
    ) -> (operation: Self)
        ensures
            operation.kind() == operation_type,
            operation.chooses() == selection,
            operation.threads() == thread_count,
    {
        Operation { selection, operation_type, thread_count, gene: PhantomData, data: PhantomData }
    }

    /// What the operation does.
    pub fn operation_type(&self) -> (operation_type: OperationType)
        ensures
            operation_type == self.kind(),
    {
        self.operation_type
    }

    /// The agents that the operation is done to.
    pub fn selection(&self) -> (selection: Selection)
        ensures
            selection == self.chooses(),
    {
        self.selection
    }

    /// The number of threads among which the work may be shared.
    pub fn thread_count(&self) -> (thread_count: u8)
        ensures
            thread_count == self.threads(),
    {
        self.thread_count
    }

    /// Whether the operation can be run.
    pub fn is_supported(&self) -> (supported: bool)
        ensures
            supported == self.supported(),
    {
        match self.operation_type {
            OperationType::Cull => match self.selection.selection_type() {
                SelectionType::RandomAny => false,
                _ => true,
            },
            _ => true,
        }
    }
}

/// Whether every operation of a pipeline can be run.
pub open spec fn all_supported<Gene, Data>(operations: Seq<Operation<Gene, Data>>) -> bool {
    forall|i: int| 0 <= i < operations.len() ==> (#[trigger] operations[i]).supported()
}

impl<Gene: Clone, Data> Operation<Gene, Data> {
    /// Whether the operation can turn the agents `before` into `after`,
    /// with a score provider that is `sure` to score and `can` give certain
    /// keys.
    pub open spec fn turns(
        &self,
        before: Map<Score, Agent<Gene>>,
        unique: bool,
        sure: bool,
        can: spec_fn(Score) -> bool,
        after: Map<Score, Agent<Gene>>,
    ) -> bool {
        match self.kind() {
            OperationType::Mutate => mutates(self.chooses(), before, unique, sure, can, after),
            OperationType::Crossover => crosses(self.chooses(), before, unique, sure, can, after),
            OperationType::Cull => after == culled(
                before,
                self.chooses().kind(),
                self.chooses().count_of(before.len()),
            ),
        }
    }

    /// Applies the operation to `population`.
    pub fn run<SP>(&self, population: Population<Gene>, data: &Data, score_provider: &mut SP) -> (result:
        Population<Gene>) where Gene: RandomGene + Hash, SP: Scoring<Gene, Data>
        requires
            population.well_formed(),
            self.supported(),
        ensures
            result.well_formed(),
            result.unique() == population.unique(),
            result.unique() ==> result.register().len() == result@.len(),
            self.turns(
                population@,
                population.unique(),
                old(score_provider).always_scores(),
                givable(*old(score_provider)),
                result@,
            ),
            keeps_word(*old(score_provider), *final(score_provider)),
    {
        match self.operation_type {
            OperationType::Mutate => mutate_agents(population, self.selection, data, score_provider),
            OperationType::Crossover => crossover_agents(
                population,
                self.selection,
                data,
                score_provider,
            ),
            OperationType::Cull => cull_agents(population, self.selection),
        }
    }
}

/// What an operation can do with a provider that says more of itself it
/// can do with one that says less.
pub proof fn lemma_turns_weakens<Gene: Clone, Data>(
    operation: Operation<Gene, Data>,
    before: Map<Score, Agent<Gene>>,
    unique: bool,
    sure: bool,
    can: spec_fn(Score) -> bool,
    lesser_sure: bool,
    lesser_can: spec_fn(Score) -> bool,
    after: Map<Score, Agent<Gene>>,
)
    requires
        operation.turns(before, unique, sure, can, after),
        covers(sure, can, lesser_sure, lesser_can),
    ensures
        operation.turns(before, unique, lesser_sure, lesser_can, after),
{
    let selection = operation.chooses();
    match operation.kind() {
        OperationType::Mutate => {
            let (subset, children, verdicts, entries) = choose|
                subset: Map<Score, &Agent<Gene>>,
                children: Seq<Agent<Gene>>,
                verdicts: Seq<bool>,
                entries: Seq<(Score, Agent<Gene>)>,
            | #[trigger]
                is_mutate_step(
                    before,
                    unique,
                    selection,
                    sure,
                    can,
                    subset,
                    children,
                    verdicts,
                    entries,
                    after,
                );
            lemma_scoring_weakens(children, verdicts, entries, sure, can, lesser_sure, lesser_can);
            assert(is_mutate_step(
                before,
                unique,
                selection,
                lesser_sure,
                lesser_can,
                subset,
                children,
                verdicts,
                entries,
                after,
            ));
        },
        OperationType::Crossover => {
            let (subset, draws, pairs, offspring, verdicts, entries) = choose|
                subset: Map<Score, &Agent<Gene>>,
                draws: Seq<(usize, usize)>,
                pairs: Seq<(Agent<Gene>, Agent<Gene>)>,
                offspring: Seq<Agent<Gene>>,
                verdicts: Seq<bool>,
                entries: Seq<(Score, Agent<Gene>)>,
            | #[trigger]
                is_crossover_step(
                    before,
                    unique,
                    selection,
                    sure,
                    can,
                    subset,
                    draws,
                    pairs,
                    offspring,
                    verdicts,
                    entries,
                    after,
                );
            lemma_scoring_weakens(offspring, verdicts, entries, sure, can, lesser_sure, lesser_can);
            assert(is_crossover_step(
                before,
                unique,
                selection,
                lesser_sure,
                lesser_can,
                subset,
                draws,
                pairs,
                offspring,
                verdicts,
                entries,
                after,
            ));
        },
        OperationType::Cull => {},
    }
}

/// Whether `scoring` can give the score `score`, for some agent and data.
pub open spec fn scores_with<Gene, Data, F>(scoring: F, score: Score) -> bool where
    F: Fn(&Agent<Gene>, &Data) -> Score,
 {
    exists|agent: &Agent<Gene>, data: &Data| #[trigger] call_ensures(scoring, (agent, data), score)
}

/// Whether a provider around `scoring` that remembers `cache` can give
/// `key`: it is a rank key of a score that the provider remembers or that the
/// function can give.
pub open spec fn is_ratable<Gene, Data, F>(
    scoring: F,
    cache: Map<u64, Score>,
    bound: Score,
    key: Score,
) -> bool where F: Fn(&Agent<Gene>, &Data) -> Score {
    exists|score: Score|
        #[trigger] is_rank_key(key, score, bound) && (scores_with::<Gene, Data, F>(scoring, score)
            || cache.contains_value(score))
}

/// Whether every score of `after` is one of `before` or one that `scoring`
/// can give.
pub open spec fn is_rated_from<Gene, Data, F>(
    scoring: F,
    before: Map<u64, Score>,
    after: Map<u64, Score>,
) -> bool where F: Fn(&Agent<Gene>, &Data) -> Score {
    forall|score: Score| #[trigger]
        after.contains_value(score) ==> before.contains_value(score) || scores_with::<
            Gene,
            Data,
            F,
        >(scoring, score)
}

/// A provider that has learned only from its function can give no key that
/// it could not give before.
pub proof fn lemma_ratable_shrinks<Gene, Data, F>(
    scoring: F,
    before: Map<u64, Score>,
    after: Map<u64, Score>,
    bound: Score,
) where F: Fn(&Agent<Gene>, &Data) -> Score
    requires
        is_rated_from::<Gene, Data, F>(scoring, before, after),
    ensures
        forall|key: Score| #[trigger]
            is_ratable::<Gene, Data, F>(scoring, after, bound, key) ==> is_ratable::<
                Gene,
                Data,
                F,
            >(scoring, before, bound, key),
{
    assert forall|key: Score| #[trigger]
        is_ratable::<Gene, Data, F>(scoring, after, bound, key) implies is_ratable::<
        Gene,
        Data,
        F,
    >(scoring, before, bound, key) by {
        let score = choose|score: Score|
            #[trigger] is_rank_key(key, score, bound) && (scores_with::<Gene, Data, F>(
                scoring,
                score,
            ) || after.contains_value(score));
        if after.contains_value(score) {
            assert(before.contains_value(score) || scores_with::<Gene, Data, F>(scoring, score));
        }
        assert(is_rank_key(key, score, bound) && (scores_with::<Gene, Data, F>(scoring, score)
            || before.contains_value(score)));
    }
}

/// The scores as answers of a function that cannot fail.
pub open spec fn as_answers(scores: Seq<Score>) -> Seq<Result<Score, ScoreError>> {
    scores.map_values(|score: Score| Ok::<Score, ScoreError>(score))
}

/// Whether `scores` are what `scoring` gave when `agents` were met one by
/// one: for each agent whose genome is not remembered when its turn comes,
/// the score at its position is one that the function can give for it. The
/// function is not asked about the others, and their scores count for
/// nothing.
pub open spec fn are_scores<Gene, Data, F>(
    scoring: F,
    data: Data,
    known: Map<u64, Score>,
    agents: Seq<Agent<Gene>>,
    scores: Seq<Score>,
) -> bool where F: Fn(&Agent<Gene>, &Data) -> Score {
    forall|i: int|
        0 <= i < agents.len() ==> learned(
            known,
            agents.take(i),
            as_answers(scores.take(i)),
        ).contains_key(agents[i].hash_value()) || call_ensures(
            scoring,
            (&agents[i], &data),
            #[trigger] scores[i],
        )
}

/// Whether a provider around `scoring` that remembered `known` can remember
/// `after` when it has met `agents` one by one, the function giving
/// `scores`: the score of each genome that was new at its turn is remembered
/// under its hash, and nothing else is.
pub open spec fn is_rating<Gene, Data, F>(
    scoring: F,
    data: Data,
    known: Map<u64, Score>,
    agents: Seq<Agent<Gene>>,
    scores: Seq<Score>,
    after: Map<u64, Score>,
) -> bool where F: Fn(&Agent<Gene>, &Data) -> Score {
    &&& scores.len() == agents.len()
    &&& are_scores(scoring, data, known, agents, scores)
    &&& after == learned(known, agents, as_answers(scores))
}

/// A scoring function of the host that takes any agent and always gives a
/// score.
struct Rating<Gene, Data, F> where F: Fn(&Agent<Gene>, &Data) -> Score {
    function: F,
    gene: PhantomData<Gene>,
    data: PhantomData<Data>,
}

impl<Gene, Data, F> Rating<Gene, Data, F> where F: Fn(&Agent<Gene>, &Data) -> Score {
    #[verifier::type_invariant]
    spec fn callable(self) -> bool {
        forall|agent: &Agent<Gene>, data: &Data| call_requires(self.function, (agent, data))
    }

    /// The same function once more.
    fn copy(&self) -> (copy: Self) where F: Copy
        ensures
            copy.function == self.function,
    {
        proof {
            use_type_invariant(self);
        }
        Rating { function: self.function, gene: PhantomData, data: PhantomData }
    }

    /// Asks the function for the score of `agent`.
    fn of(&self, agent: &Agent<Gene>, data: &Data) -> (score: Score)
        ensures
            call_ensures(self.function, (agent, data), score),
    {
        proof {
            use_type_invariant(self);
        }
        (self.function)(agent, data)
    }
}

/// A score provider around a scoring function that cannot fail.
///
/// It remembers the score of each genome that it has seen, under the
/// genome's hash. The rank key that it gives for an agent is the remembered
/// score with a fresh jitter.
pub struct ScoreProvider<Gene, Data, F> where F: Fn(&Agent<Gene>, &Data) -> Score {
    scoring_function: Rating<Gene, Data, F>,
    offset: Score,
    score_cache: HashMap<u64, Score>,
}

impl<Gene, Data, F> ScoreProvider<Gene, Data, F> where F: Fn(&Agent<Gene>, &Data) -> Score {
    /// The host's scoring function.
    pub closed spec fn scoring(&self) -> F {
        self.scoring_function.function
    }

    /// The bound of the jitter.
    pub closed spec fn jitter_bound(&self) -> Score {
        self.offset
    }

    /// The score remembered for each genome hash.
    pub closed spec fn cache(&self) -> Map<u64, Score> {
        self.score_cache@
    }

    /// A provider around `scoring_function` that has seen no genome yet.
    /// The function must take any agent.
    pub fn new(scoring_function: F, offset: Score) -> (provider: Self)
        requires
            forall|agent: &Agent<Gene>, data: &Data| call_requires(scoring_function, (agent, data)),
        ensures
            provider.scoring() == scoring_function,
            provider.jitter_bound() == offset,
            provider.cache() == Map::<u64, Score>::empty(),
            provider.always_scores(),
            forall|key: Score| #[trigger]
                provider.can_give(key) == is_ratable::<Gene, Data, F>(
                    scoring_function,
                    Map::<u64, Score>::empty(),
                    offset,
                    key,
                ),
    {
        ScoreProvider {
            scoring_function: Rating { function: scoring_function, gene: PhantomData, data: PhantomData },
            offset,
            score_cache: HashMap::new(),
        }
    }
}

impl<Gene, Data, F> Clone for ScoreProvider<Gene, Data, F> where
    F: Copy + Fn(&Agent<Gene>, &Data) -> Score,
 {
    /// A provider around the same function that remembers the same, and
    /// from here on on its own.
    fn clone(&self) -> (copy: Self)
        ensures
            copy.scoring() == self.scoring(),
            copy.jitter_bound() == self.jitter_bound(),
            copy.cache() == self.cache(),
            copy.always_scores(),
            forall|key: Score| #[trigger] copy.can_give(key) == self.can_give(key),
    {
        ScoreProvider {
            scoring_function: self.scoring_function.copy(),
            offset: self.offset,
            score_cache: self.score_cache.clone(),
        }
    }
}

impl<Gene, Data, F> Scoring<Gene, Data> for ScoreProvider<Gene, Data, F> where
    F: Fn(&Agent<Gene>, &Data) -> Score,
 {
    /// This provider always has a rank key.
    open spec fn always_scores(&self) -> bool {
        true
    }

    /// Whether `key` is a rank key of a score that the provider remembers or
    /// that the scoring function can give.
    open spec fn can_give(&self, key: Score) -> bool {
        is_ratable::<Gene, Data, F>(self.scoring(), self.cache(), self.jitter_bound(), key)
    }

    /// Scores each agent whose genome is new to the provider and remembers
    /// the score. Every agent is returned.
    fn evaluate_scores(&mut self, agents: Vec<Agent<Gene>>, data: &Data) -> (kept: Vec<Agent<Gene>>)
        ensures
            kept@ == agents@,
            final(self).scoring() == old(self).scoring(),
            final(self).jitter_bound() == old(self).jitter_bound(),
            old(self).cache().submap_of(final(self).cache()),
            forall|i: int|
                0 <= i < agents@.len() ==> final(self).cache().contains_key(
                    #[trigger] agents@[i].hash_value(),
                ),
            exists|scores: Seq<Score>| #[trigger]
                is_rating(
                    old(self).scoring(),
                    *data,
                    old(self).cache(),
                    agents@,
                    scores,
                    final(self).cache(),
                ),
    {
        let mut next: usize = 0;
        let ghost known = old(self).cache();
        let ghost mut scores: Seq<Score> = Seq::empty();
        assert(agents@.take(0) =~= Seq::<Agent<Gene>>::empty());
        assert(as_answers(scores) =~= Seq::<Result<Score, ScoreError>>::empty());
        while next < agents.len()
            invariant
                next <= agents@.len(),
                known == old(self).cache(),
                self.scoring() == old(self).scoring(),
                self.jitter_bound() == old(self).jitter_bound(),
                is_rated_from::<Gene, Data, F>(old(self).scoring(), known, self.cache()),
                is_rating(
                    old(self).scoring(),
                    *data,
                    known,
                    agents@.take(next as int),
                    scores,
                    self.cache(),
                ),
                forall|i: int|
                    0 <= i < next ==> self.cache().contains_key(#[trigger] agents@[i].hash_value()),
            decreases agents@.len() - next,
        {
            let hash = agents[next].get_hash();
            let ghost before = self.cache();
            let ghost score: Score;
            if !self.score_cache.contains_key(&hash) {
                let fresh = self.scoring_function.of(&agents[next], data);
                proof {
                    score = fresh;
                }
                screen_one(&mut self.score_cache, hash, Ok(fresh));
                proof {
                    assert forall|rated: Score| #[trigger]
                        self.cache().contains_value(rated) implies known.contains_value(rated)
                        || scores_with::<Gene, Data, F>(old(self).scoring(), rated) by {
                        let at = choose|at: u64| self.cache().contains_key(at) && self.cache()[at]
                            == rated;
                        if before.contains_key(at) && before[at] == rated {
                            assert(before.contains_value(rated));
                        } else {
                            assert(rated == fresh);
                            assert(call_ensures(old(self).scoring(), (&agents@[next as int], data), rated));
                        }
                    }
                }
            } else {
                proof {
                    score = 0;
                }
            }
            proof {
                let earlier = agents@.take(next as int);
                let longer = agents@.take(next + 1);
                let given = scores.push(score);
                assert(longer.drop_last() =~= earlier);
                assert(longer.last() == agents@[next as int]);
                assert(given.drop_last() =~= scores);
                assert(as_answers(given).drop_last() =~= as_answers(scores));
                assert(as_answers(given).last() == Ok::<Score, ScoreError>(score));
                assert(self.cache() == remembered(before, hash, Ok::<Score, ScoreError>(score)));
                assert(self.cache() == learned(known, longer, as_answers(given)));
                assert forall|i: int| 0 <= i < longer.len() implies learned(
                    known,
                    longer.take(i),
                    as_answers(given.take(i)),
                ).contains_key(longer[i].hash_value()) || call_ensures(
                    old(self).scoring(),
                    (&longer[i], data),
                    #[trigger] given[i],
                ) by {
                    assert(longer.take(i) =~= earlier.take(i));
                    assert(given.take(i) =~= scores.take(i));
                    if i < next {
                        assert(longer[i] == earlier[i]);
                        assert(given[i] == scores[i]);
                    } else {
                        assert(earlier.take(i) =~= earlier);
                        assert(scores.take(i) =~= scores);
                    }
                }
                assert forall|i: int| 0 <= i < next + 1 implies self.cache().contains_key(
                    #[trigger] agents@[i].hash_value(),
                ) by {
                    if i < next {
                        assert(before.contains_key(agents@[i].hash_value()));
                    }
                }
                scores = given;
            }
            next = next + 1;
        }
        proof {
            assert(agents@.take(agents@.len() as int) =~= agents@);
            lemma_learned_grows(known, agents@, as_answers(scores));
            lemma_ratable_shrinks::<Gene, Data, F>(
                old(self).scoring(),
                known,
                self.cache(),
                self.jitter_bound(),
            );
        }
        agents
    }

    /// The rank key for `agent`: the score of its genome, remembered or
    /// asked of the scoring function now, with a fresh jitter. This provider
    /// always has one.
    fn get_score(&mut self, agent: &Agent<Gene>, data: &Data, rng: &mut ThreadRng) -> (score: Result<
        Score,
        ScoreError,
    >)
        ensures
            score is Ok,
            final(self).scoring() == old(self).scoring(),
            final(self).jitter_bound() == old(self).jitter_bound(),
            final(self).cache().contains_key(agent.hash_value()),
            final(self).cache() == old(self).cache().insert(
                agent.hash_value(),
                final(self).cache()[agent.hash_value()],
            ),
            old(self).cache().contains_key(agent.hash_value()) ==> final(self).cache() == old(
                self,
            ).cache(),
            !old(self).cache().contains_key(agent.hash_value()) ==> call_ensures(
                old(self).scoring(),
                (agent, data),
                final(self).cache()[agent.hash_value()],
            ),
            match score {
                Ok(key) => is_rank_key(
                    key,
                    final(self).cache()[agent.hash_value()],
                    old(self).jitter_bound(),
                ),
                Err(_) => true,
            },
    {
        let hash = agent.get_hash();
        let offset = draw_jitter(rng, self.offset);
        let known = self.score_cache.get(&hash);
        let fitness = match known {
            Some(found) => {
                assert(self.cache() =~= self.cache().insert(hash, self.cache()[hash]));
                *found
            },
            None => {
                let fresh = self.scoring_function.of(agent, data);
                self.score_cache.insert(hash, fresh);
                assert(self.cache() =~= old(self).cache().insert(hash, fresh));
                fresh
            },
        };
        let key = offset_score(fitness, offset, self.offset);
        assert(key == jittered(fitness, offset, self.jitter_bound()));
        proof {
            assert(is_rank_key(key, fitness, self.jitter_bound()));
            if old(self).cache().contains_key(hash) {
                assert(old(self).cache().contains_value(fitness));
            } else {
                assert(call_ensures(old(self).scoring(), (agent, data), fitness));
                assert(scores_with::<Gene, Data, F>(old(self).scoring(), fitness));
            }
            assert forall|rated: Score| #[trigger]
                self.cache().contains_value(rated) implies old(self).cache().contains_value(rated)
                || scores_with::<Gene, Data, F>(old(self).scoring(), rated) by {
                let at = choose|at: u64| self.cache().contains_key(at) && self.cache()[at] == rated;
                if at != hash {
                    assert(old(self).cache().contains_key(at));
                    assert(old(self).cache().contains_value(rated));
                }
            }
            lemma_ratable_shrinks::<Gene, Data, F>(
                old(self).scoring(),
                old(self).cache(),
                self.cache(),
                self.jitter_bound(),
            );
        }
        Ok(key)
    }
}

/// The groups into which `items` are dealt in turn: the first item to the
/// first of `groups` groups, the next to the next, and after the last group
/// the first again.
pub open spec fn dealt<T>(items: Seq<T>, groups: nat) -> Seq<Seq<T>>
    decreases items.len(),
{
    if items.len() == 0 {
        Seq::new(groups, |group: int| Seq::<T>::empty())
    } else {
        let earlier = dealt(items.drop_last(), groups);
        let turn = (items.len() - 1) % (groups as int);
        earlier.update(turn, earlier[turn].push(items.last()))
    }
}

/// Deals `items` in turn into `groups` groups.
pub fn partition_round_robin<T>(items: Vec<T>, groups: usize) -> (parts: Vec<Vec<T>>)
    requires
        groups >= 1,
    ensures
        parts@.len() == groups,
        parts@.map_values(|part: Vec<T>| part@) == dealt(items@, groups as nat),
{
    let mut parts: Vec<Vec<T>> = Vec::new();
    let mut made: usize = 0;
    while made < groups
        invariant
            made <= groups,
            parts@.len() == made,
            forall|group: int| 0 <= group < made ==> (#[trigger] parts@[group])@.len() == 0,
        decreases groups - made,
    {
        parts.push(Vec::new());
        made = made + 1;
    }
    let ghost all = items@;
    assert(all.take(0) =~= Seq::<T>::empty());
    assert(parts@.map_values(|part: Vec<T>| part@) =~= dealt(all.take(0), groups as nat)) by {
        assert forall|group: int| 0 <= group < groups implies (#[trigger] parts@[group])@
            =~= Seq::<T>::empty() by {}
    }
    let mut turn: usize = 0;
    for item in walk: items
        invariant
            walk.seq() == all,
            groups >= 1,
            parts@.len() == groups,
            turn < groups,
            turn == walk.index() % (groups as int),
            parts@.map_values(|part: Vec<T>| part@) == dealt(
                all.take(walk.index() as int),
                groups as nat,
            ),
    {
        let ghost before = parts@.map_values(|part: Vec<T>| part@);
        let ghost done = all.take(walk.index() + 1);
        proof {
            assert(done.drop_last() =~= all.take(walk.index() as int));
            assert(done.last() == item);
        }
        parts[turn].push(item);
        proof {
            assert(parts@.map_values(|part: Vec<T>| part@) =~= before.update(
                turn as int,
                before[turn as int].push(item),
            ));
        }
        proof {
            let dealings = walk.index() as int;
            let rounds = dealings / (groups as int);
            vstd::arithmetic::div_mod::lemma_fundamental_div_mod(dealings, groups as int);
            assert(groups * rounds == rounds * groups) by (nonlinear_arith);
            if turn + 1 == groups {
                assert((rounds + 1) * groups == rounds * groups + groups) by (nonlinear_arith);
                vstd::arithmetic::div_mod::lemma_fundamental_div_mod_converse(
                    dealings + 1,
                    groups as int,
                    rounds + 1,
                    0,
                );
            } else {
                vstd::arithmetic::div_mod::lemma_fundamental_div_mod_converse(
                    dealings + 1,
                    groups as int,
                    rounds,
                    turn + 1,
                );
            }
        }
        turn = turn + 1;
        if turn == groups {
            turn = 0;
        }
    }
    assert(all.take(all.len() as int) =~= all);
    parts
}

} // verus!
