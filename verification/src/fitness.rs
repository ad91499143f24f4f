//! Fitness: what a host tells the engine of an agent's worth.

use crate::agent::Agent;
use crate::random::random_below;
use rand::rngs::ThreadRng;
use std::collections::HashMap;
use std::marker::PhantomData;
use vstd::prelude::*;

verus! {

/// The integer by which agents are ranked and found. A higher score is a
/// better one.
pub type Score = u64;

/// Why a fitness function could not score an agent.
#[derive(Debug)]
pub struct ScoreError {
    details: String,
}

impl ScoreError {
    /// The text of this error.
    pub closed spec fn message(&self) -> Seq<char> {
        self.details@
    }

    /// An error that says `details`.
    pub fn new(details: String) -> (error: Self)
        ensures
            error.message() == details@,
    {
        ScoreError { details }
    }

    /// The text of this error.
    pub fn description(&self) -> (text: &str)
        ensures
            text@ == self.message(),
    {
        self.details.as_str()
    }
}

/// A source of rank keys for agents.
///
/// A host that wants more than a fitness function implements this trait.
/// The engine takes whatever an implementation returns: a score is the key
/// under which the agent is filed, an error drops the agent.
pub trait ScoreProvider<Gene, Data> {
    /// Whether this provider has a rank key for whatever agent it is asked
    /// about, now and after any call. A provider that does not say says no.
    open spec fn always_scores(&self) -> bool {
        false
    }

    /// Whether this provider can give `key` as a rank key, now or after any
    /// call. A provider that does not say can give any key.
    open spec fn can_give(&self, key: Score) -> bool {
        true
    }

    /// Tries to score each of `agents` and returns those that could be
    /// scored.
    fn evaluate_scores(&mut self, agents: Vec<Agent<Gene>>, data: &Data) -> (kept: Vec<Agent<Gene>>)
        ensures
            old(self).always_scores() ==> final(self).always_scores(),
            forall|key: Score| #[trigger] final(self).can_give(key) ==> old(self).can_give(key),
    ;

    /// The rank key under which `agent` is to be filed now.
    fn get_score(&mut self, agent: &Agent<Gene>, data: &Data, rng: &mut ThreadRng) -> (score: Result<
        Score,
        ScoreError,
    >)
        ensures
            old(self).always_scores() ==> score is Ok && final(self).always_scores(),
            score matches Ok(key) ==> old(self).can_give(key),
            forall|key: Score| #[trigger] final(self).can_give(key) ==> old(self).can_give(key),
    ;
}

/// The keys that `provider` can give.
pub open spec fn givable<Gene, Data, SP: ScoreProvider<Gene, Data>>(provider: SP) -> spec_fn(
    Score,
) -> bool {
    |key: Score| provider.can_give(key)
}

/// Whether `after`, a later state of the provider `before`, stands by what
/// `before` said of itself: it always scores where `before` did, and can
/// give no key that `before` could not.
pub open spec fn keeps_word<Gene, Data, SP: ScoreProvider<Gene, Data>>(before: SP, after: SP) -> bool {
    &&& before.always_scores() ==> after.always_scores()
    &&& forall|key: Score| #[trigger] after.can_give(key) ==> before.can_give(key)
}

/// Whether a provider that is `sure` to score and `can` give certain keys
/// says at least as much of itself as one of which `lesser_sure` and
/// `lesser_can` hold.
pub open spec fn covers(
    sure: bool,
    can: spec_fn(Score) -> bool,
    lesser_sure: bool,
    lesser_can: spec_fn(Score) -> bool,
) -> bool {
    &&& lesser_sure ==> sure
    &&& forall|key: Score| #[trigger] can(key) ==> lesser_can(key)
}

/// The number of jitter values for the bound `bound`: twice the bound, and
/// no more than a score can hold.
pub open spec fn jitter_span(bound: Score) -> int {
    if 2 * bound > u64::MAX {
        u64::MAX as int
    } else {
        2 * bound
    }
}

/// Whether `jitter` can be drawn for the bound `bound`: a value below the
/// span, and 0 where the span is empty.
pub open spec fn possible_jitter(jitter: Score, bound: Score) -> bool {
    jitter < jitter_span(bound) || jitter == 0
}

/// The rank key of an agent of fitness `fitness` for the draw `jitter`:
/// the fitness, raised by the jitter and lowered by the bound, kept within
/// what a score can hold.
pub open spec fn jittered(fitness: Score, jitter: Score, bound: Score) -> Score {
    let raw = fitness + jitter - bound;
    if raw <= 0 {
        0
    } else if raw >= u64::MAX {
        u64::MAX
    } else {
        raw as Score
    }
}

/// Whether `key` can come out as the rank key of an agent of fitness
/// `fitness`: for some jitter that may be drawn, it is the jittered fitness.
pub open spec fn is_rank_key(key: Score, fitness: Score, bound: Score) -> bool {
    exists|jitter: Score|
        possible_jitter(jitter, bound) && key == #[trigger] jittered(fitness, jitter, bound)
}

/// A rank key lies no further from the fitness than the bound of the
/// jitter, and is the fitness itself where the bound is 0.
pub proof fn lemma_rank_key_range(key: Score, fitness: Score, bound: Score)
    requires
        is_rank_key(key, fitness, bound),
    ensures
        fitness - bound <= key <= fitness + bound,
        bound == 0 ==> key == fitness,
{
    let jitter = choose|jitter: Score|
        possible_jitter(jitter, bound) && key == #[trigger] jittered(fitness, jitter, bound);
}

/// The rank key of an agent of fitness `fitness` for the draw `jitter`.
pub fn offset_score(fitness: Score, jitter: Score, bound: Score) -> (score: Score)
    ensures
        score == jittered(fitness, jitter, bound),
{
    let raised: u128 = fitness as u128 + jitter as u128;
    if raised <= bound as u128 {
        0
    } else {
        let raw: u128 = raised - bound as u128;
        if raw >= u64::MAX as u128 {
            u64::MAX
        } else {
            raw as u64
        }
    }
}

/// Draws the jitter for one score.
pub(crate) fn draw_jitter(rng: &mut ThreadRng, bound: Score) -> (jitter: Score)
    ensures
        possible_jitter(jitter, bound),
{
    if bound == 0 {
        0
    } else {
        let span = match bound.checked_mul(2) {
            Some(doubled) => doubled,
            None => u64::MAX,
        };
        random_below(rng, span)
    }
}

/// The agents of `agents` whose verdict is to stay, in their order.
pub open spec fn survivors<Gene>(agents: Seq<Agent<Gene>>, verdicts: Seq<bool>) -> Seq<Agent<Gene>>
    decreases agents.len(),
{
    if agents.len() == 0 {
        Seq::empty()
    } else {
        let earlier = survivors(agents.drop_last(), verdicts.drop_last());
        if verdicts.last() {
            earlier.push(agents.last())
        } else {
            earlier
        }
    }
}

/// Whether `function` can answer with the fitness `fitness`, for some agent
/// and data.
pub open spec fn answers_with<Gene, Data, F>(function: F, fitness: Score) -> bool where
    F: Fn(&Agent<Gene>, &Data) -> Result<Score, ScoreError>,
 {
    exists|agent: &Agent<Gene>, data: &Data| #[trigger]
        call_ensures(function, (agent, data), Ok::<Score, ScoreError>(fitness))
}

/// Whether a provider around `function` that remembers `cache` can give
/// `key`: it is a rank key of a fitness that the provider remembers or that
/// the function can answer with.
pub open spec fn is_givable<Gene, Data, F>(
    function: F,
    cache: Map<u64, Score>,
    bound: Score,
    key: Score,
) -> bool where F: Fn(&Agent<Gene>, &Data) -> Result<Score, ScoreError> {
    exists|fitness: Score|
        #[trigger] is_rank_key(key, fitness, bound) && (answers_with::<Gene, Data, F>(
            function,
            fitness,
        ) || cache.contains_value(fitness))
}

/// Whether every fitness of `after` is one of `before` or one that
/// `function` can answer with.
pub open spec fn is_learned_from<Gene, Data, F>(
    function: F,
    before: Map<u64, Score>,
    after: Map<u64, Score>,
) -> bool where F: Fn(&Agent<Gene>, &Data) -> Result<Score, ScoreError> {
    forall|fitness: Score| #[trigger]
        after.contains_value(fitness) ==> before.contains_value(fitness) || answers_with::<
            Gene,
            Data,
            F,
        >(function, fitness)
}

/// A provider that has learned only from its function can give no key that
/// it could not give before.
pub proof fn lemma_givable_shrinks<Gene, Data, F>(
    function: F,
    before: Map<u64, Score>,
    after: Map<u64, Score>,
    bound: Score,
) where F: Fn(&Agent<Gene>, &Data) -> Result<Score, ScoreError>
    requires
        is_learned_from::<Gene, Data, F>(function, before, after),
    ensures
        forall|key: Score| #[trigger]
            is_givable::<Gene, Data, F>(function, after, bound, key) ==> is_givable::<
                Gene,
                Data,
                F,
            >(function, before, bound, key),
{
    assert forall|key: Score| #[trigger]
        is_givable::<Gene, Data, F>(function, after, bound, key) implies is_givable::<
        Gene,
        Data,
        F,
    >(function, before, bound, key) by {
        let fitness = choose|fitness: Score|
            #[trigger] is_rank_key(key, fitness, bound) && (answers_with::<Gene, Data, F>(
                function,
                fitness,
            ) || after.contains_value(fitness));
        if after.contains_value(fitness) {
            assert(before.contains_value(fitness) || answers_with::<Gene, Data, F>(
                function,
                fitness,
            ));
        }
        assert(is_rank_key(key, fitness, bound) && (answers_with::<Gene, Data, F>(
            function,
            fitness,
        ) || before.contains_value(fitness)));
    }
}

/// Whether `function` never fails: whether every answer that it can give
/// is a fitness.
pub open spec fn never_fails<Gene, Data, F>(function: F) -> bool where
    F: Fn(&Agent<Gene>, &Data) -> Result<Score, ScoreError>,
 {
    forall|agent: &Agent<Gene>, data: &Data, answer: Result<Score, ScoreError>|
        call_ensures(function, (agent, data), answer) ==> answer is Ok
}

/// What a provider that remembered `known` remembers after it has met a
/// genome of hash `hash`: the same where it remembered the genome; else,
/// where the fitness function answered with a fitness, that fitness under the
/// hash as well; else the same.
pub open spec fn remembered(
    known: Map<u64, Score>,
    hash: u64,
    answer: Result<Score, ScoreError>,
) -> Map<u64, Score> {
    if known.contains_key(hash) {
        known
    } else {
        match answer {
            Ok(fitness) => known.insert(hash, fitness),
            Err(_) => known,
        }
    }
}

/// Whether an agent of hash `hash` stays in a screening by a provider that
/// remembers `known`: where its genome is remembered, or the fitness function
/// answered with a fitness.
pub open spec fn is_kept(known: Map<u64, Score>, hash: u64, answer: Result<Score, ScoreError>) -> bool {
    known.contains_key(hash) || answer is Ok
}

/// Takes in the answer of the fitness function for a genome of hash `hash`:
/// remembers the fitness where there is one and the genome is new, and says
/// whether the agent stays.
pub fn screen_one(cache: &mut HashMap<u64, Score>, hash: u64, answer: Result<Score, ScoreError>) -> (kept:
    bool)
    ensures
        final(cache)@ == remembered(old(cache)@, hash, answer),
        kept == is_kept(old(cache)@, hash, answer),
{
    if cache.contains_key(&hash) {
        true
    } else {
        match answer {
            Ok(fitness) => {
                cache.insert(hash, fitness);
                true
            },
            Err(_) => false,
        }
    }
}

/// What a provider that remembered `known` remembers after it has met
/// `agents` one by one, the fitness function answering `answers`.
pub open spec fn learned<Gene>(
    known: Map<u64, Score>,
    agents: Seq<Agent<Gene>>,
    answers: Seq<Result<Score, ScoreError>>,
) -> Map<u64, Score>
    decreases agents.len(),
{
    if agents.len() == 0 {
        known
    } else {
        remembered(
            learned(known, agents.drop_last(), answers.drop_last()),
            agents.last().hash_value(),
            answers.last(),
        )
    }
}

/// For each of `agents`, whether it stays in a screening that meets them
/// one by one: each is judged by what is remembered when its turn comes.
pub open spec fn screening_verdicts<Gene>(
    known: Map<u64, Score>,
    agents: Seq<Agent<Gene>>,
    answers: Seq<Result<Score, ScoreError>>,
) -> Seq<bool>
    decreases agents.len(),
{
    if agents.len() == 0 {
        Seq::empty()
    } else {
        screening_verdicts(known, agents.drop_last(), answers.drop_last()).push(
            is_kept(
                learned(known, agents.drop_last(), answers.drop_last()),
                agents.last().hash_value(),
                answers.last(),
            ),
        )
    }
}

/// Whether `answers` are what `function` gave in a screening of `agents`:
/// for each agent whose genome is not remembered when its turn comes, the
/// answer at its position is one that the function can give for it. The
/// function is not asked about the others, and their answers count for
/// nothing.
pub open spec fn are_answers<Gene, Data, F>(
    function: F,
    data: Data,
    known: Map<u64, Score>,
    agents: Seq<Agent<Gene>>,
    answers: Seq<Result<Score, ScoreError>>,
) -> bool where F: Fn(&Agent<Gene>, &Data) -> Result<Score, ScoreError> {
    forall|i: int|
        0 <= i < agents.len() ==> learned(known, agents.take(i), answers.take(i)).contains_key(
            agents[i].hash_value(),
        ) || call_ensures(function, (&agents[i], &data), #[trigger] answers[i])
}

/// Whether a screening of `agents` by a provider around `function` that
/// remembered `known` can leave it remembering `after` and return `kept`,
/// the function answering `answers`: the agents are met one by one, each
/// answer is taken in as `remembered` and `is_kept` say, and `kept` are the
/// agents that stay, in their order.
pub open spec fn is_screening<Gene, Data, F>(
    function: F,
    data: Data,
    known: Map<u64, Score>,
    agents: Seq<Agent<Gene>>,
    answers: Seq<Result<Score, ScoreError>>,
    after: Map<u64, Score>,
    kept: Seq<Agent<Gene>>,
) -> bool where F: Fn(&Agent<Gene>, &Data) -> Result<Score, ScoreError> {
    &&& answers.len() == agents.len()
    &&& are_answers(function, data, known, agents, answers)
    &&& after == learned(known, agents, answers)
    &&& kept == survivors(agents, screening_verdicts(known, agents, answers))
}

/// A screening forgets nothing.
pub proof fn lemma_learned_grows<Gene>(
    known: Map<u64, Score>,
    agents: Seq<Agent<Gene>>,
    answers: Seq<Result<Score, ScoreError>>,
)
    ensures
        known.submap_of(learned(known, agents, answers)),
    decreases agents.len(),
{
    if agents.len() > 0 {
        lemma_learned_grows(known, agents.drop_last(), answers.drop_last());
        let before = learned(known, agents.drop_last(), answers.drop_last());
        assert forall|hash: u64| known.contains_key(hash) implies #[trigger] learned(
            known,
            agents,
            answers,
        ).contains_key(hash) && learned(known, agents, answers)[hash] == known[hash] by {
            assert(before.contains_key(hash));
        }
    }
}

/// A fitness function of the host that takes any agent.
struct Fitness<Gene, Data, F> where F: Fn(&Agent<Gene>, &Data) -> Result<Score, ScoreError> {
    function: F,
    gene: PhantomData<Gene>,
    data: PhantomData<Data>,
}

impl<Gene, Data, F> Fitness<Gene, Data, F> where
    F: Fn(&Agent<Gene>, &Data) -> Result<Score, ScoreError>,
 {
    #[verifier::type_invariant]
    spec fn callable(self) -> bool {
        forall|agent: &Agent<Gene>, data: &Data| call_requires(self.function, (agent, data))
    }

    /// The same function once more.
    fn copy(&self) -> (copy: Self) where F: Copy
        ensures
            copy.function == self.function,
    {
        proof {
            use_type_invariant(self);
        }
        Fitness { function: self.function, gene: PhantomData, data: PhantomData }
    }

    /// Asks the function for the fitness of `agent`.
    fn of(&self, agent: &Agent<Gene>, data: &Data) -> (fitness: Result<Score, ScoreError>)
        ensures
            call_ensures(self.function, (agent, data), fitness),
    {
        proof {
            use_type_invariant(self);
        }
        (self.function)(agent, data)
    }
}

/// A score provider around a fitness function of the host.
///
/// It remembers the fitness of each genome that it has seen, under the
/// genome's hash, and never forgets one. The rank key that it gives for an
/// agent is the remembered fitness with a fresh jitter, so that agents of one
/// fitness come to lie under neighbouring keys.
pub struct GeneralScoreProvider<Gene, Data, F> where
    F: Fn(&Agent<Gene>, &Data) -> Result<Score, ScoreError>,
 {
    scoring_function: Fitness<Gene, Data, F>,
    offset: Score,
    score_cache: HashMap<u64, Score>,
}

impl<Gene, Data, F> GeneralScoreProvider<Gene, Data, F> where
    F: Fn(&Agent<Gene>, &Data) -> Result<Score, ScoreError>,
 {
    /// The host's fitness function.
    pub closed spec fn fitness_function(&self) -> F {
        self.scoring_function.function
    }

    /// The bound of the jitter.
    pub closed spec fn jitter_bound(&self) -> Score {
        self.offset
    }

    /// The fitness remembered for each genome hash.
    pub closed spec fn cache(&self) -> Map<u64, Score> {
        self.score_cache@
    }

    /// A provider around `scoring_function` that has seen no genome yet.
    /// The function must take any agent.
    pub fn new(scoring_function: F, offset: Score) -> (provider: Self)
        requires
            forall|agent: &Agent<Gene>, data: &Data| call_requires(scoring_function, (agent, data)),
        ensures
            provider.fitness_function() == scoring_function,
            provider.jitter_bound() == offset,
            provider.cache() == Map::<u64, Score>::empty(),
            provider.always_scores() == never_fails::<Gene, Data, F>(scoring_function),
            forall|key: Score| #[trigger]
                provider.can_give(key) == is_givable::<Gene, Data, F>(
                    scoring_function,
                    Map::<u64, Score>::empty(),
                    offset,
                    key,
                ),
    {
        GeneralScoreProvider {
            scoring_function: Fitness { function: scoring_function, gene: PhantomData, data: PhantomData },
            offset,
            score_cache: HashMap::new(),
        }
    }

    /// The rank key for the remembered fitness of the genome `hash` and the
    /// jitter `offset`.
    pub fn offset_cached_score(&self, hash: &u64, offset: Score) -> (score: Result<Score, ScoreError>)
        requires
            self.cache().contains_key(*hash),
        ensures
            score matches Ok(key) && key == jittered(
                self.cache()[*hash],
                offset,
                self.jitter_bound(),
            ),
    {
        let fitness = self.score_cache.get(hash);
        match fitness {
            Some(known) => Ok(offset_score(*known, offset, self.offset)),
            None => Ok(0),
        }
    }
}

impl<Gene, Data, F> Clone for GeneralScoreProvider<Gene, Data, F> where
    F: Copy + Fn(&Agent<Gene>, &Data) -> Result<Score, ScoreError>,
 {
    /// A provider around the same function that remembers the same, and
    /// from here on on its own.
    fn clone(&self) -> (copy: Self)
        ensures
            copy.fitness_function() == self.fitness_function(),
            copy.jitter_bound() == self.jitter_bound(),
            copy.cache() == self.cache(),
            copy.always_scores() == self.always_scores(),
            forall|key: Score| #[trigger] copy.can_give(key) == self.can_give(key),
    {
        GeneralScoreProvider {
            scoring_function: self.scoring_function.copy(),
            offset: self.offset,
            score_cache: self.score_cache.clone(),
        }
    }
}

impl<Gene, Data, F> ScoreProvider<Gene, Data> for GeneralScoreProvider<Gene, Data, F> where
    F: Fn(&Agent<Gene>, &Data) -> Result<Score, ScoreError>,
 {
    /// Whether the fitness function never fails.
    open spec fn always_scores(&self) -> bool {
        never_fails::<Gene, Data, F>(self.fitness_function())
    }

    /// Whether `key` is a rank key of a fitness that the provider remembers
    /// or that the fitness function can answer with.
    open spec fn can_give(&self, key: Score) -> bool {
        is_givable::<Gene, Data, F>(self.fitness_function(), self.cache(), self.jitter_bound(), key)
    }

    /// Scores each agent whose genome is new to the provider, once, and
    /// remembers the fitness. An agent that the fitness function fails on is
    /// dropped; the others are returned in their order.
    fn evaluate_scores(&mut self, agents: Vec<Agent<Gene>>, data: &Data) -> (kept: Vec<Agent<Gene>>)
        ensures
            final(self).fitness_function() == old(self).fitness_function(),
            final(self).jitter_bound() == old(self).jitter_bound(),
            old(self).cache().submap_of(final(self).cache()),
            exists|answers: Seq<Result<Score, ScoreError>>| #[trigger]
                is_screening(
                    old(self).fitness_function(),
                    *data,
                    old(self).cache(),
                    agents@,
                    answers,
                    final(self).cache(),
                    kept@,
                ),
    {
        let mut cached: Vec<Agent<Gene>> = Vec::new();
        let ghost all = agents@;
        let ghost mut answers: Seq<Result<Score, ScoreError>> = Seq::empty();
        assert(all.take(0) =~= Seq::<Agent<Gene>>::empty());
        assert(cached@ =~= survivors(
            all.take(0),
            screening_verdicts(old(self).cache(), all.take(0), answers),
        ));
        for agent in walk: agents
            invariant
                walk.seq() == all,
                self.fitness_function() == old(self).fitness_function(),
                self.jitter_bound() == old(self).jitter_bound(),
                is_learned_from::<Gene, Data, F>(
                    old(self).fitness_function(),
                    old(self).cache(),
                    self.cache(),
                ),
                is_screening(
                    old(self).fitness_function(),
                    *data,
                    old(self).cache(),
                    all.take(walk.index() as int),
                    answers,
                    self.cache(),
                    cached@,
                ),
        {
            let ghost seen = walk.index() as int;
            let ghost known = old(self).cache();
            let ghost before = self.cache();
            let ghost stayed = cached@;
            let hash = agent.get_hash();
            let ghost answer: Result<Score, ScoreError>;
            if self.score_cache.contains_key(&hash) {
                proof {
                    answer = Ok(0);
                }
                cached.push(agent);
            } else {
                let given = self.scoring_function.of(&agent, data);
                proof {
                    answer = given;
                }
                if screen_one(&mut self.score_cache, hash, given) {
                    cached.push(agent);
                }
                proof {
                    assert forall|fitness: Score| #[trigger]
                        self.cache().contains_value(fitness) implies old(self).cache().contains_value(
                        fitness,
                    ) || answers_with::<Gene, Data, F>(old(self).fitness_function(), fitness) by {
                        let at = choose|at: u64| self.cache().contains_key(at) && self.cache()[at]
                            == fitness;
                        if before.contains_key(at) && before[at] == fitness {
                            assert(before.contains_value(fitness));
                        } else {
                            assert(answer == Ok::<Score, ScoreError>(fitness));
                            assert(call_ensures(
                                old(self).fitness_function(),
                                (&agent, data),
                                Ok::<Score, ScoreError>(fitness),
                            ));
                        }
                    }
                }
            }
            proof {
                let earlier = all.take(seen);
                let longer = all.take(seen + 1);
                let given = answers.push(answer);
                assert(longer.drop_last() =~= earlier);
                assert(longer.last() == agent);
                assert(given.drop_last() =~= answers);
                assert(given.last() == answer);
                assert(before == learned(known, earlier, answers));
                assert(self.cache() == remembered(before, hash, answer));
                assert(self.cache() == learned(known, longer, given));
                let verdicts = screening_verdicts(known, longer, given);
                assert(verdicts == screening_verdicts(known, earlier, answers).push(
                    is_kept(before, hash, answer),
                ));
                assert(verdicts.drop_last() =~= screening_verdicts(known, earlier, answers));
                assert(verdicts.last() == is_kept(before, hash, answer));
                assert(cached@ == survivors(longer, verdicts));
                assert forall|i: int| 0 <= i < longer.len() implies learned(
                    known,
                    longer.take(i),
                    given.take(i),
                ).contains_key(longer[i].hash_value()) || call_ensures(
                    old(self).fitness_function(),
                    (&longer[i], data),
                    #[trigger] given[i],
                ) by {
                    assert(longer.take(i) =~= earlier.take(i));
                    assert(given.take(i) =~= answers.take(i));
                    if i < seen {
                        assert(longer[i] == earlier[i]);
                        assert(given[i] == answers[i]);
                    } else {
                        assert(earlier.take(i) =~= earlier);
                        assert(answers.take(i) =~= answers);
                    }
                }
                answers = given;
            }
        }
        proof {
            assert(all.take(all.len() as int) =~= all);
            lemma_learned_grows(old(self).cache(), all, answers);
            lemma_givable_shrinks::<Gene, Data, F>(
                old(self).fitness_function(),
                old(self).cache(),
                self.cache(),
                self.jitter_bound(),
            );
        }
        cached
    }

    /// The rank key for `agent`: the fitness of its genome, remembered or
    /// asked of the fitness function now, with a fresh jitter. Where the
    /// fitness function fails, the error is handed on and nothing is
    /// remembered.
    fn get_score(&mut self, agent: &Agent<Gene>, data: &Data, rng: &mut ThreadRng) -> (score: Result<
        Score,
        ScoreError,
    >)
        ensures
            final(self).fitness_function() == old(self).fitness_function(),
            final(self).jitter_bound() == old(self).jitter_bound(),
            old(self).cache().contains_key(agent.hash_value()) ==> score is Ok,
            final(self).cache() == if score is Ok {
                old(self).cache().insert(agent.hash_value(), final(self).cache()[agent.hash_value()])
            } else {
                old(self).cache()
            },
            score is Ok ==> final(self).cache().contains_key(agent.hash_value()),
            old(self).cache().contains_key(agent.hash_value()) ==> final(self).cache() == old(
                self,
            ).cache(),
            !old(self).cache().contains_key(agent.hash_value()) ==> call_ensures(
                old(self).fitness_function(),
                (agent, data),
                match score {
                    Ok(key) => Ok::<Score, ScoreError>(final(self).cache()[agent.hash_value()]),
                    Err(error) => Err::<Score, ScoreError>(error),
                },
            ),
            score matches Ok(key) ==> is_rank_key(
                key,
                final(self).cache()[agent.hash_value()],
                old(self).jitter_bound(),
            ),
    {
        let hash = agent.get_hash();
        let offset = draw_jitter(rng, self.offset);
        if self.score_cache.contains_key(&hash) {
            assert(self.cache() =~= self.cache().insert(hash, self.cache()[hash]));
            let score = self.offset_cached_score(&hash, offset);
            assert(score matches Ok(key) && key == jittered(
                self.cache()[hash],
                offset,
                self.jitter_bound(),
            ));
            proof {
                let fitness = self.cache()[hash];
                assert(self.cache().contains_value(fitness));
                if let Ok(key) = score {
                    assert(is_rank_key(key, fitness, self.jitter_bound()));
                }
            }
            return score;
        }
        let result = self.scoring_function.of(agent, data);
        match result {
            Ok(fitness) => {
                self.score_cache.insert(hash, fitness);
                let score = self.offset_cached_score(&hash, offset);
                proof {
                    assert(self.cache()[hash] == fitness);
                    assert(self.cache() =~= old(self).cache().insert(hash, fitness));
                    assert(score matches Ok(key) && key == jittered(fitness, offset, self.jitter_bound()));
                    assert(call_ensures(
                        old(self).fitness_function(),
                        (agent, data),
                        Ok::<Score, ScoreError>(fitness),
                    ));
                    assert(answers_with::<Gene, Data, F>(old(self).fitness_function(), fitness));
                    if let Ok(key) = score {
                        assert(is_rank_key(key, fitness, self.jitter_bound()));
                    }
                    assert forall|learned_fitness: Score| #[trigger]
                        self.cache().contains_value(learned_fitness) implies old(
                        self,
                    ).cache().contains_value(learned_fitness) || answers_with::<Gene, Data, F>(
                        old(self).fitness_function(),
                        learned_fitness,
                    ) by {
                        let at = choose|at: u64|
                            self.cache().contains_key(at) && self.cache()[at] == learned_fitness;
                        if at != hash {
                            assert(old(self).cache().contains_key(at));
                            assert(old(self).cache().contains_value(learned_fitness));
                        }
                    }
                    lemma_givable_shrinks::<Gene, Data, F>(
                        old(self).fitness_function(),
                        old(self).cache(),
                        self.cache(),
                        self.jitter_bound(),
                    );
                }
                score
            },
            Err(error) => Err(error),
        }
    }
}

} // verus!
