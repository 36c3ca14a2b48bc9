use crate::model::{Dna, Genome, Problem, Timetable, HOURS};
use genevo::operator::CrossoverOp;
use genevo::random::Prng;
use genevo::recombination::discrete::{MultiPointCrossBreeder, SinglePointCrossBreeder, UniformCrossBreeder};
use vstd::prelude::*;

verus! {

broadcast use vstd::std_specs::hash::group_hash_axioms;

/// genevo's random number generator, carried opaquely into its crossover operators.
#[verifier::external_type_specification]
#[verifier::external_body]
pub struct ExPrng(Prng);


/// Crossover strategy: one is chosen per run.
#[derive(Debug, Clone, Copy, PartialEq, Eq)]
pub enum Crossover {
    /// Each gene from a randomly chosen parent.
    Uniform,
    /// One cut; the two slices come from different parents.
    SinglePoint,
    /// The given number of cuts; neighbouring slices come from different parents.
    MultiPoint(usize),
}

/// All parents as long as the first one.
pub open spec fn same_length(parents: Seq<Genome>) -> bool {
    forall|k: int| 0 <= k < parents.len() ==> (#[trigger] parents[k])@.len() == parents[0]@.len()
}

/// One child per parent, each as long as the parents, each gene copied from
/// the same position of some parent.
pub open spec fn mixes(children: Seq<Genome>, parents: Seq<Genome>) -> bool {
    &&& children.len() == parents.len()
    &&& forall|c: int| 0 <= c < children.len() ==> (#[trigger] children[c])@.len() == parents[0]@.len()
    &&& forall|c: int, i: int|
        0 <= c < children.len() && 0 <= i < parents[0]@.len() ==> exists|k: int|
            0 <= k < parents.len() && (#[trigger] children[c]@[i]) == parents[k]@[i]
}

/// Whether `strategy` can recombine `parents`: at least one parent (two for
/// the cut strategies), all of one length, and at least two genes per cut
/// (at least one cut for the multi-point strategy).
pub open spec fn can_recombine(strategy: Crossover, parents: Seq<Genome>) -> bool {
    &&& parents.len() >= 1
    &&& same_length(parents)
    &&& match strategy {
        Crossover::Uniform => true,
        Crossover::SinglePoint => parents.len() >= 2 && parents[0]@.len() >= 2,
        Crossover::MultiPoint(n) => parents.len() >= 2 && n >= 1 && parents[0]@.len() >= 2 * n,
    }
}

/// Relies on genevo's UniformCrossBreeder::crossover, which breeds one child
/// per parent and fills each position of a child from that position of a
/// randomly drawn parent.
#[verifier::external_body]
fn uniform_cross(parents: Vec<Genome>, rng: &mut Prng) -> (children: Vec<Genome>)
    requires
        parents@.len() >= 1,
        same_length(parents@),
    ensures
        mixes(children@, parents@),
{
    UniformCrossBreeder::new().crossover(parents, rng)
}

/// Relies on genevo's SinglePointCrossBreeder::crossover, which breeds one
/// child per parent from the slices before and after one random cut, each
/// slice copied in place from a parent other than the previous slice's.
#[verifier::external_body]
fn single_point_cross(parents: Vec<Genome>, rng: &mut Prng) -> (children: Vec<Genome>)
    requires
        parents@.len() >= 2,
        same_length(parents@),
        parents@[0]@.len() >= 2,
    ensures
        mixes(children@, parents@),
{
    SinglePointCrossBreeder::new().crossover(parents, rng)
}

/// Relies on genevo's MultiPointCrossBreeder::crossover, which breeds one
/// child per parent from the slices between `cuts` ascending random cut
/// points, each slice copied in place from a parent other than the previous
/// slice's.
#[verifier::external_body]
fn multi_point_cross(parents: Vec<Genome>, cuts: usize, rng: &mut Prng) -> (children: Vec<Genome>)
    requires
        parents@.len() >= 2,
        same_length(parents@),
        cuts >= 1,
        parents@[0]@.len() >= 2 * cuts,
    ensures
        mixes(children@, parents@),
{
    MultiPointCrossBreeder::new(cuts).crossover(parents, rng)
}

/// Recombines `parents` with `strategy`; `None` exactly when the strategy
/// cannot take these parents. Children of parents that are all valid genomes
/// are valid genomes.
pub fn recombine(t: &Timetable, strategy: Crossover, parents: Vec<Genome>, rng: &mut Prng) -> (r: Option<Vec<Genome>>)
    ensures
        r is Some <==> can_recombine(strategy, parents@),
        r matches Some(children) ==> mixes(children@, parents@),
        r matches Some(children) ==> (forall|k: int| 0 <= k < parents@.len() ==> t.valid_genome(#[trigger] parents@[k]@))
            ==> forall|c: int| 0 <= c < children@.len() ==> t.valid_genome(#[trigger] children@[c]@),
{
    let n = parents.len();
    if n == 0 {
        return None;
    }
    let len = parents[0].len();
    let mut k: usize = 1;
    while k < n
        invariant
            n == parents@.len(),
            1 <= k <= n,
            len == parents@[0]@.len(),
            forall|j: int| 0 <= j < k ==> (#[trigger] parents@[j])@.len() == len,
        decreases n - k,
    {
        if parents[k].len() != len {
            return None;
        }
        k += 1;
    }
    let children = match strategy {
        Crossover::Uniform => uniform_cross(parents, rng),
        Crossover::SinglePoint => {
            if n < 2 || len < 2 {
                return None;
            }
            single_point_cross(parents, rng)
        },
        Crossover::MultiPoint(cuts) => {
            if n < 2 || cuts == 0 || len / 2 < cuts {
                return None;
            }
            multi_point_cross(parents, cuts, rng)
        },
    };
    proof {
        assert forall|c: int| 0 <= c < children@.len() && (forall|k: int| 0 <= k < parents@.len() ==> t.valid_genome(#[trigger] parents@[k]@))
            implies t.valid_genome(#[trigger] children@[c]@) by {
            assert forall|i: int| 0 <= i < children@[c]@.len() implies t.gene_fits(i, #[trigger] children@[c]@[i]) by {
                let k = choose|k: int| 0 <= k < parents@.len() && children@[c]@[i] == parents@[k]@[i];
                assert(t.valid_genome(parents@[k]@));
            }
        }
    }
    Some(children)
}

impl Dna {
    /// Redraws the hour and the lecturer of a gene, keeping its subject: the
    /// new hour is `hour` and the new lecturer is the `pick`-th one eligible
    /// for the subject.
    pub fn random_mutated(self, problem: &Problem, hour: usize, pick: usize) -> (r: Dna)
        requires
            hour < HOURS,
            pick < problem.eligible(self.0.0).len(),
        ensures
            r.0.0 == self.0.0,
            r.0.1 == problem.eligible(self.0.0)[pick as int],
            r.0.2 == hour,
            problem.eligible(r.0.0).contains(r.0.1),
    {
        let lecturers = problem.subject_requirements.get(&self.0.0).unwrap();
        let lecturer = lecturers[pick];
        assert(problem.eligible(self.0.0)[pick as int] == lecturer);
        Dna((self.0.0, lecturer, hour))
    }
}

impl Timetable {
    /// Whether `draws` can seed a genome: one (pick, hour) pair per meeting,
    /// each pick indexing the meeting subject's eligible lecturers and each
    /// hour below `HOURS`.
    pub open spec fn draws_fit(&self, draws: Seq<(usize, usize)>) -> bool {
        &&& draws.len() == self.meetings@.len()
        &&& forall|i: int|
            0 <= i < draws.len() ==> (#[trigger] draws[i]).0 < self.problem.eligible(
                self.meetings@[i].1,
            ).len() && draws[i].1 < HOURS
    }

    /// Builds a genome from one (pick, hour) draw per meeting: gene `i` takes
    /// the subject of meeting `i`, its `pick`-th eligible lecturer and `hour`.
    pub fn build_genome(&self, draws: &Vec<(usize, usize)>) -> (r: Genome)
        requires
            self.wf(),
            self.draws_fit(draws@),
        ensures
            self.valid_genome(r@),
            forall|i: int|
                0 <= i < r@.len() ==> (#[trigger] r@[i]) == Dna(
                    (
                        self.meetings@[i].1,
                        self.problem.eligible(self.meetings@[i].1)[draws@[i].0 as int],
                        draws@[i].1,
                    ),
                ),
    {
        let mut genome: Genome = Vec::new();
        let mut i: usize = 0;
        while i < self.meetings.len()
            invariant
                self.wf(),
                self.draws_fit(draws@),
                i <= self.meetings@.len(),
                genome@.len() == i,
                forall|k: int|
                    0 <= k < i ==> (#[trigger] genome@[k]) == Dna(
                        (
                            self.meetings@[k].1,
                            self.problem.eligible(self.meetings@[k].1)[draws@[k].0 as int],
                            draws@[k].1,
                        ),
                    ),
            decreases self.meetings@.len() - i,
        {
            let subject = self.meetings[i].1;
            let lecturers = self.problem.subject_requirements.get(&subject).unwrap();
            let (pick, hour) = draws[i];
            genome.push(Dna((subject, lecturers[pick], hour)));
            i += 1;
        }
        genome
    }
}

} // verus!
