//! Agents: one candidate solution each.

use crate::random::random_index;
use crate::random::RandomGene;
use std::collections::hash_map::DefaultHasher;
use std::hash::Hash;
use std::hash::Hasher;
use vstd::prelude::*;

verus! {

/// `Hash::hash` of a vector of genes: feeds the genome to `state`.
///
/// What is written depends on the gene type's own `Hash`, so nothing is
/// claimed of the hasher's state afterwards.
#[verifier::external_body]
fn feed_genome<Gene: Hash>(genes: &Vec<Gene>, state: &mut DefaultHasher) {
    genes.hash(state)
}

/// The content hash of a genome, as std's default hasher computes it.
fn genome_hash<Gene: Hash>(genes: &Vec<Gene>) -> u64 {
    let mut state = DefaultHasher::new();
    feed_genome(genes, &mut state);
    state.finish()
}

/// Whether `copy` is an element-wise clone of `genes`.
pub open spec fn is_copy<Gene: Clone>(genes: Seq<Gene>, copy: Seq<Gene>) -> bool {
    &&& copy.len() == genes.len()
    &&& forall|i: int| 0 <= i < genes.len() ==> cloned(genes[i], #[trigger] copy[i])
}

/// The genome that one perturbation makes of `genes`: the gene at `removed`
/// leaves, then `gene` enters the shortened genome at `inserted`.
pub open spec fn perturbed<Gene>(genes: Seq<Gene>, removed: int, inserted: int, gene: Gene) -> Seq<
    Gene,
> {
    genes.remove(removed).insert(inserted, gene)
}

/// One perturbation: which gene leaves, and where which gene enters.
pub struct Perturbation<Gene> {
    pub removed: int,
    pub inserted: int,
    pub gene: Gene,
}

/// Whether `mutate` can draw `step` for a genome of `length` genes: any gene
/// may leave, and the new one enters before one of the genes that remain (at
/// the front when none remains).
pub open spec fn drawable<Gene>(length: int, step: Perturbation<Gene>) -> bool {
    &&& 0 <= step.removed < length
    &&& 0 <= step.inserted
    &&& step.inserted < length - 1 || step.inserted == 0
}

/// The genome after the perturbations `steps`, applied in order.
pub open spec fn mutated_by<Gene>(genes: Seq<Gene>, steps: Seq<Perturbation<Gene>>) -> Seq<Gene>
    decreases steps.len(),
{
    if steps.len() == 0 {
        genes
    } else {
        let last = steps.last();
        perturbed(mutated_by(genes, steps.drop_last()), last.removed, last.inserted, last.gene)
    }
}

/// The number of perturbations in one mutation.
pub const PERTURBATIONS: usize = 5;

/// Whether `mutant` is what the perturbations `steps` make of `genes`, the
/// steps being as many as one mutation has and each of them drawable.
pub open spec fn is_mutation<Gene>(
    genes: Seq<Gene>,
    steps: Seq<Perturbation<Gene>>,
    mutant: Seq<Gene>,
) -> bool {
    &&& steps.len() == PERTURBATIONS
    &&& forall|i: int| 0 <= i < steps.len() ==> drawable(genes.len() as int, #[trigger] steps[i])
    &&& mutant == mutated_by(genes, steps)
}

/// Drawable perturbations keep the length of a genome.
pub proof fn lemma_mutated_length<Gene>(genes: Seq<Gene>, steps: Seq<Perturbation<Gene>>)
    requires
        forall|i: int| 0 <= i < steps.len() ==> drawable(genes.len() as int, #[trigger] steps[i]),
    ensures
        mutated_by(genes, steps).len() == genes.len(),
    decreases steps.len(),
{
    if steps.len() > 0 {
        let earlier = steps.drop_last();
        assert forall|i: int| 0 <= i < earlier.len() implies drawable(
            genes.len() as int,
            #[trigger] earlier[i],
        ) by {
            assert(earlier[i] == steps[i]);
        }
        lemma_mutated_length(genes, earlier);
        assert(drawable(genes.len() as int, steps[steps.len() - 1]));
    }
}

/// Where a crossover at `point` cuts the genome that is crossed into, of
/// `own` genes, when the other parent has `other` genes: a longer genome is
/// cut later by the difference, so that the child keeps its length.
pub open spec fn cut_of(own: int, other: int, point: int) -> int {
    if own > other {
        point + (own - other)
    } else {
        point
    }
}

/// Where a crossover at `point` takes up the other parent's genome.
pub open spec fn resume_of(own: int, other: int, point: int) -> int {
    if other > own {
        point + (other - own)
    } else {
        point
    }
}

/// The child of a crossover at `point`: the genes of `first` before its cut,
/// then those of `second` from where it is taken up.
pub open spec fn crossed<Gene>(first: Seq<Gene>, second: Seq<Gene>, point: int) -> Seq<Gene> {
    first.take(cut_of(first.len() as int, second.len() as int, point)) + second.skip(
        resume_of(first.len() as int, second.len() as int, point),
    )
}

/// Whether `point` can be drawn as the crossover point of genomes of `own`
/// and `other` genes: a position of the shorter one, or 0 where the shorter
/// one is empty.
pub open spec fn crossover_point(own: int, other: int, point: int) -> bool {
    let shorter = if own > other { other } else { own };
    0 <= point && (point < shorter || point == 0)
}

/// Whether `child` is what a crossover at `point` makes of `first` when the
/// genes of `second` are crossed in: the genes before the cut are those of
/// `first`, the others are clones of those of `second`.
pub open spec fn is_crossing<Gene: Clone>(
    first: Seq<Gene>,
    second: Seq<Gene>,
    point: int,
    child: Seq<Gene>,
) -> bool {
    let cut = cut_of(first.len() as int, second.len() as int, point);
    let resume = resume_of(first.len() as int, second.len() as int, point);
    &&& child.len() == first.len()
    &&& child.take(cut) == first.take(cut)
    &&& is_copy(second.skip(resume), child.skip(cut))
}

/// The child of a crossing is an element-wise clone of `crossed`, also
/// where the genome that was crossed into was itself a clone.
pub proof fn lemma_crossing_is_copy<Gene: Clone>(
    origin: Seq<Gene>,
    first: Seq<Gene>,
    second: Seq<Gene>,
    point: int,
    child: Seq<Gene>,
)
    requires
        0 <= point <= first.len(),
        point <= second.len(),
        is_copy(origin, first),
        is_crossing(first, second, point, child),
    ensures
        is_copy(crossed(origin, second, point), child),
{
    let cut = cut_of(first.len() as int, second.len() as int, point);
    let resume = resume_of(first.len() as int, second.len() as int, point);
    let expected = crossed(origin, second, point);
    assert forall|i: int| 0 <= i < expected.len() implies cloned(expected[i], #[trigger] child[i]) by {
        if i < cut {
            assert(child.take(cut)[i] == first.take(cut)[i]);
            assert(cloned(origin[i], first[i]));
        } else {
            assert(cloned(second.skip(resume)[i - cut], child.skip(cut)[i - cut]));
        }
    }
}

/// A crossover keeps the length of the genome that is crossed into.
pub proof fn lemma_crossed_length<Gene>(first: Seq<Gene>, second: Seq<Gene>, point: int)
    requires
        0 <= point <= first.len(),
        point <= second.len(),
    ensures
        crossed(first, second, point).len() == first.len(),
{
}

/// Whether `mutant` can come of a mutation of a clone of `parent`.
pub open spec fn is_mutant<Gene: Clone>(parent: Seq<Gene>, mutant: Seq<Gene>) -> bool {
    exists|copy: Seq<Gene>, steps: Seq<Perturbation<Gene>>|
        is_copy(parent, copy) && #[trigger] is_mutation(copy, steps, mutant)
}

/// Whether `child` can come of a crossover of clones of `first` and
/// `second`, the genes of `second` being crossed into those of `first`.
pub open spec fn is_offspring<Gene: Clone>(
    first: Seq<Gene>,
    second: Seq<Gene>,
    child: Seq<Gene>,
) -> bool {
    exists|point: int|
        crossover_point(first.len() as int, second.len() as int, point) && is_copy(
            #[trigger] crossed(first, second, point),
            child,
        )
}

/// A genome of fixed length with the hash of its content.
///
/// Two agents count as the same genome when their hashes agree.
pub struct Agent<Gene> {
    genes: Vec<Gene>,
    hash: u64,
}

impl<Gene> View for Agent<Gene> {
    type V = Seq<Gene>;

    closed spec fn view(&self) -> Seq<Gene> {
        self.genes@
    }
}

impl<Gene> Agent<Gene> {
    /// The hash that stands for this agent's genome.
    pub closed spec fn hash_value(&self) -> u64 {
        self.hash
    }

    /// An agent of `number_of_genes` freshly drawn genes.
    pub fn new(number_of_genes: usize) -> (agent: Self) where Gene: RandomGene + Hash
        ensures
            agent@.len() == number_of_genes,
    {
        let mut rng = rand::thread_rng();
        let mut genes: Vec<Gene> = Vec::with_capacity(number_of_genes);
        let mut drawn: usize = 0;
        while drawn < number_of_genes
            invariant
                drawn <= number_of_genes,
                genes@.len() == drawn,
            decreases number_of_genes - drawn,
        {
            genes.push(Gene::random(&mut rng));
            drawn = drawn + 1;
        }
        let hash = genome_hash(&genes);
        Agent { genes, hash }
    }

    /// The genes, in their order.
    pub fn get_genes(&self) -> (genes: &Vec<Gene>)
        ensures
            genes@ == self@,
    {
        &self.genes
    }

    /// Crosses the genes of `other` into this agent at a point drawn from
    /// the positions of the shorter genome: the genes from the cut onward
    /// give way to clones of `other`'s. The length stays, whatever the length
    /// of `other`.
    pub fn crossover_some_genes(&mut self, other: &Self) where Gene: Clone + Hash
        ensures
            final(self)@.len() == old(self)@.len(),
            exists|point: int|
                crossover_point(old(self)@.len() as int, other@.len() as int, point)
                    && #[trigger] is_crossing(old(self)@, other@, point, final(self)@),
    {
        let mut rng = rand::thread_rng();
        let self_len = self.genes.len();
        let other_len = other.genes.len();
        let mut gene_count = self_len;
        if self_len > other_len {
            gene_count = other_len;
        }
        let point = if gene_count > 0 {
            random_index(&mut rng, gene_count)
        } else {
            0
        };
        self.crossover_at(other, point);
    }

    /// Crosses the genes of `other` into this agent at `point`, and hashes
    /// the result.
    pub fn crossover_at(&mut self, other: &Self, point: usize) where Gene: Clone + Hash
        requires
            point <= old(self)@.len(),
            point <= other@.len(),
        ensures
            final(self)@.len() == old(self)@.len(),
            is_crossing(old(self)@, other@, point as int, final(self)@),
    {
        let self_len = self.genes.len();
        let other_len = other.genes.len();
        let mut self_crossover_point = point;
        let mut other_crossover_point = point;
        if self_len > other_len {
            self_crossover_point = self_crossover_point + (self_len - other_len);
        } else if other_len > self_len {
            other_crossover_point = other_crossover_point + (other_len - self_len);
        }
        self.genes.truncate(self_crossover_point);
        let ghost kept = self.genes@;
        let mut taken = other_crossover_point;
        while taken < other_len
            invariant
                other_crossover_point <= taken <= other_len,
                other_len == other.genes@.len(),
                self.genes@.len() == kept.len() + (taken - other_crossover_point),
                self.genes@.take(kept.len() as int) == kept,
                forall|i: int|
                    0 <= i < taken - other_crossover_point ==> cloned(
                        other.genes@[other_crossover_point + i],
                        #[trigger] self.genes@[kept.len() + i],
                    ),
            decreases other_len - taken,
        {
            let ghost before = self.genes@;
            self.genes.push(other.genes[taken].clone());
            proof {
                assert(self.genes@.take(kept.len() as int) =~= before.take(kept.len() as int));
                assert forall|i: int| 0 <= i < taken + 1 - other_crossover_point implies cloned(
                    other.genes@[other_crossover_point + i],
                    #[trigger] self.genes@[kept.len() + i],
                ) by {
                    if i < taken - other_crossover_point {
                        assert(self.genes@[kept.len() + i] == before[kept.len() + i]);
                    }
                }
            }
            taken = taken + 1;
        }
        proof {
            let cut = self_crossover_point as int;
            assert(kept =~= old(self)@.take(cut));
            assert forall|i: int| 0 <= i < other@.skip(other_crossover_point as int).len() implies cloned(
                other@.skip(other_crossover_point as int)[i],
                #[trigger] self.genes@.skip(cut)[i],
            ) by {
                assert(self.genes@.skip(cut)[i] == self.genes@[kept.len() + i]);
            }
        }
        self.hash = genome_hash(&self.genes);
    }

    /// Perturbs the genome as often as one mutation does: each time a gene
    /// at a drawn position leaves and a freshly drawn gene enters at a drawn
    /// position of the shortened genome. The hash follows.
    pub fn mutate(&mut self) where Gene: RandomGene + Hash
        requires
            old(self)@.len() >= 1,
        ensures
            final(self)@.len() == old(self)@.len(),
            exists|steps: Seq<Perturbation<Gene>>| #[trigger]
                is_mutation(old(self)@, steps, final(self)@),
    {
        let mut rng = rand::thread_rng();
        let gene_count = self.genes.len();
        let ghost mut steps: Seq<Perturbation<Gene>> = Seq::empty();
        let mut round: usize = 0;
        while round < PERTURBATIONS
            invariant
                round <= PERTURBATIONS,
                gene_count >= 1,
                gene_count == old(self)@.len(),
                self.genes@.len() == gene_count,
                steps.len() == round,
                forall|i: int| 0 <= i < steps.len() ==> drawable(gene_count as int, #[trigger] steps[i]),
                self.genes@ == mutated_by(old(self)@, steps),
            decreases PERTURBATIONS - round,
        {
            let removed = random_index(&mut rng, gene_count);
            let inserted = if gene_count > 1 {
                random_index(&mut rng, gene_count - 1)
            } else {
                0
            };
            let gene = Gene::random(&mut rng);
            proof {
                let step = Perturbation { removed: removed as int, inserted: inserted as int, gene };
                let longer = steps.push(step);
                assert(longer.drop_last() =~= steps);
                assert(longer.last() == step);
                steps = longer;
            }
            self.replace_gene(removed, inserted, gene);
            round = round + 1;
        }
        self.hash = genome_hash(&self.genes);
        assert(is_mutation(old(self)@, steps, self@));
    }

    /// One perturbation with the given draws, and the hash that follows.
    pub fn perturb(&mut self, removed: usize, inserted: usize, gene: Gene) where Gene: Hash
        requires
            removed < old(self)@.len(),
            inserted < old(self)@.len(),
        ensures
            final(self)@ == perturbed(old(self)@, removed as int, inserted as int, gene),
            final(self)@.len() == old(self)@.len(),
    {
        self.replace_gene(removed, inserted, gene);
        self.hash = genome_hash(&self.genes);
    }

    /// One perturbation; the hash is left as it was.
    fn replace_gene(&mut self, removed: usize, inserted: usize, gene: Gene)
        requires
            removed < old(self).genes@.len(),
            inserted < old(self).genes@.len(),
        ensures
            final(self).genes@ == perturbed(old(self).genes@, removed as int, inserted as int, gene),
            final(self).genes@.len() == old(self).genes@.len(),
            final(self).hash == old(self).hash,
    {
        self.genes.remove(removed);
        self.genes.insert(inserted, gene);
    }

    /// Whether the two agents count as the same genome: whether their
    /// hashes agree. The genes are not compared.
    pub fn has_same_genes(&self, other: &Self) -> (same: bool)
        ensures
            same == (self.hash_value() == other.hash_value()),
    {
        self.hash == other.hash
    }

    /// The hash that stands for the genome.
    pub fn get_hash(&self) -> (hash: u64)
        ensures
            hash == self.hash_value(),
    {
        self.hash
    }
}

impl<Gene: Clone> Clone for Agent<Gene> {
    /// A copy with clones of the genes and the same hash.
    fn clone(&self) -> (copy: Self)
        ensures
            is_copy(self@, copy@),
            copy.hash_value() == self.hash_value(),
    {
        Agent { genes: self.genes.clone(), hash: self.hash }
    }
}

/// The child of two parents: a copy of `parent1` with the genes of `parent2`
/// crossed in at a drawn point. It has as many genes as `parent1`.
pub fn mate<Gene>(parent1: &Agent<Gene>, parent2: &Agent<Gene>) -> (child: Agent<Gene>) where
    Gene: Clone + Hash,

    ensures
        child@.len() == parent1@.len(),
        is_offspring(parent1@, parent2@, child@),
{
    let mut child = parent1.clone();
    let ghost copied = child@;
    child.crossover_some_genes(parent2);
    proof {
        let point = choose|point: int|
            crossover_point(copied.len() as int, parent2@.len() as int, point)
                && #[trigger] is_crossing(copied, parent2@, point, child@);
        lemma_crossing_is_copy(parent1@, copied, parent2@, point, child@);
        assert(crossover_point(parent1@.len() as int, parent2@.len() as int, point) && is_copy(
            crossed(parent1@, parent2@, point),
            child@,
        ));
    }
    child
}

} // verus!
