use crate::model::{Dna, Genome, GroupId, LecturerId, SubjectId, Timetable};
use std::collections::HashMap;
use vstd::prelude::*;

verus! {

broadcast use vstd::std_specs::hash::group_hash_axioms;

/// Hours a lecturer has left in `free` (none when the lecturer is not listed).
pub open spec fn quota_left(free: Map<LecturerId, usize>, l: LecturerId) -> int {
    if free.contains_key(l) {
        free[l] as int
    } else {
        0
    }
}

/// What one meeting adds to the score: +1 when neither its group nor its
/// lecturer is in conflict, -1 when both are, nothing otherwise.
pub open spec fn contribution(satisfies_group: bool, satisfies_lecturer: bool) -> int {
    if satisfies_group && satisfies_lecturer {
        1
    } else if !satisfies_group && !satisfies_lecturer {
        -1
    } else {
        0
    }
}

/// The evaluator's bookkeeping after a prefix of the scan.
pub struct Scan {
    pub groups_used: Set<(GroupId, usize)>,
    pub lecturers_used: Set<(LecturerId, usize)>,
    pub free: Map<LecturerId, usize>,
    pub score: int,
}

/// Whether the group of meeting `k` is still free at the gene's hour.
pub open spec fn group_ok(s: Scan, meetings: Seq<(GroupId, SubjectId)>, genome: Seq<Dna>, k: int) -> bool {
    !s.groups_used.contains((meetings[k].0, genome[k].0.2))
}

/// Whether the gene's lecturer has hours left and is free at the gene's hour.
pub open spec fn lecturer_ok(s: Scan, genome: Seq<Dna>, k: int) -> bool {
    quota_left(s.free, genome[k].0.1) != 0 && !s.lecturers_used.contains((genome[k].0.1, genome[k].0.2))
}

/// The state after scanning the first `k` positions in meeting order; a
/// lecturer's hours are claimed greedily by the earliest positions.
pub open spec fn scan(
    meetings: Seq<(GroupId, SubjectId)>,
    genome: Seq<Dna>,
    quota: Map<LecturerId, usize>,
    k: nat,
) -> Scan
    decreases k,
{
    if k == 0 {
        Scan { groups_used: Set::empty(), lecturers_used: Set::empty(), free: quota, score: 0 }
    } else {
        let s = scan(meetings, genome, quota, (k - 1) as nat);
        let i = k - 1;
        let group = meetings[i].0;
        let lecturer = genome[i].0.1;
        let hour = genome[i].0.2;
        let sg = group_ok(s, meetings, genome, i);
        let sl = lecturer_ok(s, genome, i);
        Scan {
            groups_used: s.groups_used.insert((group, hour)),
            lecturers_used: if sl {
                s.lecturers_used.insert((lecturer, hour))
            } else {
                s.lecturers_used
            },
            free: if sl {
                s.free.insert(lecturer, (s.free[lecturer] - 1) as usize)
            } else {
                s.free
            },
            score: s.score + contribution(sg, sl),
        }
    }
}

/// Number of positions the scan visits: the meetings paired with genes.
pub open spec fn scanned(meetings: Seq<(GroupId, SubjectId)>, genome: Seq<Dna>) -> nat {
    if meetings.len() <= genome.len() {
        meetings.len()
    } else {
        genome.len()
    }
}

/// The fitness of a genome: the score after scanning every position.
pub open spec fn fitness(
    meetings: Seq<(GroupId, SubjectId)>,
    genome: Seq<Dna>,
    quota: Map<LecturerId, usize>,
) -> int {
    scan(meetings, genome, quota, scanned(meetings, genome)).score
}

/// The score after `k` positions lies in [-k, k].
pub proof fn lemma_scan_bounds(
    meetings: Seq<(GroupId, SubjectId)>,
    genome: Seq<Dna>,
    quota: Map<LecturerId, usize>,
    k: nat,
)
    ensures
        -(k as int) <= scan(meetings, genome, quota, k).score <= k,
    decreases k,
{
    if k > 0 {
        lemma_scan_bounds(meetings, genome, quota, (k - 1) as nat);
    }
}

proof fn lemma_push_contains<T>(v: Seq<T>, x: T)
    ensures
        forall|p: T| #[trigger] v.push(x).contains(p) <==> v.contains(p) || p == x,
{
    assert forall|p: T| #[trigger] v.push(x).contains(p) <==> v.contains(p) || p == x by {
        if v.contains(p) {
            let k = choose|k: int| 0 <= k < v.len() && v[k] == p;
            assert(v.push(x)[k] == p);
        }
        if p == x {
            assert(v.push(x)[v.len() as int] == p);
        }
        if v.push(x).contains(p) {
            let k = choose|k: int| 0 <= k < v.push(x).len() && v.push(x)[k] == p;
            if k < v.len() {
                assert(v[k] == p);
            }
        }
    }
}


/// The (group, hour) slot that position `i` occupies.
pub open spec fn group_hour(meetings: Seq<(GroupId, SubjectId)>, genome: Seq<Dna>, i: int) -> (GroupId, usize) {
    (meetings[i].0, genome[i].0.2)
}

/// The (lecturer, hour) slot that position `i` occupies.
pub open spec fn lecturer_hour(genome: Seq<Dna>, i: int) -> (LecturerId, usize) {
    (genome[i].0.1, genome[i].0.2)
}

/// How many of the first `k` genes are taught by `l`.
pub open spec fn lecturer_count(genome: Seq<Dna>, l: LecturerId, k: nat) -> int
    decreases k,
{
    if k == 0 {
        0
    } else {
        lecturer_count(genome, l, (k - 1) as nat) + if genome[k - 1].0.1 == l {
            1int
        } else {
            0
        }
    }
}

/// How many of the first `k` positions reuse a (group, hour) slot taken earlier.
pub open spec fn repeated_slots(meetings: Seq<(GroupId, SubjectId)>, genome: Seq<Dna>, k: nat) -> int
    decreases k,
{
    if k == 0 {
        0
    } else {
        repeated_slots(meetings, genome, (k - 1) as nat) + if exists|j: int|
            0 <= j < k - 1 && #[trigger] group_hour(meetings, genome, j) == group_hour(
                meetings,
                genome,
                k - 1,
            ) {
            1int
        } else {
            0
        }
    }
}

proof fn lemma_count_mono(genome: Seq<Dna>, l: LecturerId, a: nat, b: nat)
    requires
        a <= b,
    ensures
        lecturer_count(genome, l, a) <= lecturer_count(genome, l, b),
    decreases b - a,
{
    if a < b {
        lemma_count_mono(genome, l, a, (b - 1) as nat);
    }
}

/// After `k` positions the scan has taken exactly the (group, hour) slots of
/// those positions, whatever the lecturers did.
proof fn lemma_groups_used(
    meetings: Seq<(GroupId, SubjectId)>,
    genome: Seq<Dna>,
    quota: Map<LecturerId, usize>,
    k: nat,
)
    ensures
        forall|p| #[trigger] scan(meetings, genome, quota, k).groups_used.contains(p) <==> exists|i: int|
            0 <= i < k && #[trigger] group_hour(meetings, genome, i) == p,
    decreases k,
{
    if k > 0 {
        lemma_groups_used(meetings, genome, quota, (k - 1) as nat);
        let s = scan(meetings, genome, quota, k);
        let prev = scan(meetings, genome, quota, (k - 1) as nat);
        assert(s.groups_used == prev.groups_used.insert(group_hour(meetings, genome, k - 1)));
        assert forall|p| #[trigger] s.groups_used.contains(p) <==> exists|i: int|
            0 <= i < k && #[trigger] group_hour(meetings, genome, i) == p by {
            if s.groups_used.contains(p) && p != group_hour(meetings, genome, k - 1) {
                assert(prev.groups_used.contains(p));
            }
            if p == group_hour(meetings, genome, k - 1) {
                assert(group_hour(meetings, genome, k - 1) == p);
            }
            if exists|i: int| 0 <= i < k && #[trigger] group_hour(meetings, genome, i) == p {
                let i = choose|i: int| 0 <= i < k && #[trigger] group_hour(meetings, genome, i) == p;
                if i < k - 1 {
                    assert(scan(meetings, genome, quota, (k - 1) as nat).groups_used.contains(p));
                }
            }
        }
    }
}

proof fn lemma_perfect_prefix(
    meetings: Seq<(GroupId, SubjectId)>,
    genome: Seq<Dna>,
    quota: Map<LecturerId, usize>,
    k: nat,
)
    requires
        genome.len() == meetings.len(),
        k <= meetings.len(),
        forall|i: int, j: int|
            0 <= i < j < meetings.len() ==> group_hour(meetings, genome, i) != group_hour(meetings, genome, j),
        forall|i: int, j: int|
            0 <= i < j < meetings.len() ==> lecturer_hour(genome, i) != lecturer_hour(genome, j),
        forall|l: LecturerId|
            lecturer_count(genome, l, meetings.len()) <= #[trigger] quota_left(quota, l),
    ensures
        scan(meetings, genome, quota, k).score == k,
        forall|p| #[trigger] scan(meetings, genome, quota, k).lecturers_used.contains(p) <==> exists|i: int|
            0 <= i < k && #[trigger] lecturer_hour(genome, i) == p,
        forall|l: LecturerId|
            #[trigger] quota_left(scan(meetings, genome, quota, k).free, l) == quota_left(quota, l)
                - lecturer_count(genome, l, k),
    decreases k,
{
    if k > 0 {
        let i = k - 1;
        let prev = scan(meetings, genome, quota, i as nat);
        let s = scan(meetings, genome, quota, k);
        lemma_perfect_prefix(meetings, genome, quota, i as nat);
        lemma_groups_used(meetings, genome, quota, i as nat);
        let l = genome[i].0.1;
        assert(!prev.groups_used.contains(group_hour(meetings, genome, i)));
        assert(!prev.lecturers_used.contains(lecturer_hour(genome, i)));
        lemma_count_mono(genome, l, k, meetings.len());
        assert(quota_left(prev.free, l) > 0);
        assert(lecturer_ok(prev, genome, i));
        assert forall|p| #[trigger] s.lecturers_used.contains(p) <==> exists|j: int|
            0 <= j < k && #[trigger] lecturer_hour(genome, j) == p by {
            if p == lecturer_hour(genome, i) {
                assert(lecturer_hour(genome, i) == p);
            }
            if exists|j: int| 0 <= j < k && #[trigger] lecturer_hour(genome, j) == p {
                let j = choose|j: int| 0 <= j < k && #[trigger] lecturer_hour(genome, j) == p;
                if j < i {
                    assert(prev.lecturers_used.contains(p));
                }
            }
        }
        assert forall|m: LecturerId| #[trigger] quota_left(s.free, m) == quota_left(quota, m)
            - lecturer_count(genome, m, k) by {
            assert(quota_left(prev.free, m) == quota_left(quota, m) - lecturer_count(genome, m, i as nat));
        }
    }
}

/// A genome whose (group, hour) slots are all distinct, whose (lecturer, hour)
/// slots are all distinct, and which gives no lecturer more hours than their
/// quota scores one point per meeting: the highest possible fitness.
pub proof fn lemma_conflict_free_is_perfect(
    meetings: Seq<(GroupId, SubjectId)>,
    genome: Seq<Dna>,
    quota: Map<LecturerId, usize>,
)
    requires
        genome.len() == meetings.len(),
        forall|i: int, j: int|
            0 <= i < j < meetings.len() ==> group_hour(meetings, genome, i) != group_hour(meetings, genome, j),
        forall|i: int, j: int|
            0 <= i < j < meetings.len() ==> lecturer_hour(genome, i) != lecturer_hour(genome, j),
        forall|l: LecturerId|
            lecturer_count(genome, l, meetings.len()) <= #[trigger] quota_left(quota, l),
    ensures
        fitness(meetings, genome, quota) == meetings.len(),
{
    lemma_perfect_prefix(meetings, genome, quota, meetings.len());
}

proof fn lemma_exhausted_prefix(
    meetings: Seq<(GroupId, SubjectId)>,
    genome: Seq<Dna>,
    quota: Map<LecturerId, usize>,
    k: nat,
)
    requires
        k <= scanned(meetings, genome),
        forall|i: int| 0 <= i < scanned(meetings, genome) ==> quota_left(quota, #[trigger] genome[i].0.1) == 0,
    ensures
        scan(meetings, genome, quota, k).free == quota,
        scan(meetings, genome, quota, k).score == -repeated_slots(meetings, genome, k),
    decreases k,
{
    if k > 0 {
        let i = k - 1;
        lemma_exhausted_prefix(meetings, genome, quota, i as nat);
        lemma_groups_used(meetings, genome, quota, i as nat);
        let prev = scan(meetings, genome, quota, i as nat);
        assert(quota_left(quota, genome[i].0.1) == 0);
        if exists|j: int| 0 <= j < i && #[trigger] group_hour(meetings, genome, j) == group_hour(meetings, genome, i) {
            assert(prev.groups_used.contains(group_hour(meetings, genome, i)));
        }
    }
}

/// When no lecturer of the genome has any hours, every position loses its
/// lecturer, so each one whose (group, hour) slot was already taken by an
/// earlier position costs a point and the others score nothing: the fitness is
/// minus the number of repeated slots. When every position but the first of
/// each slot repeats one, this is the lowest score those slots allow.
pub proof fn lemma_exhausted_lecturers_score(
    meetings: Seq<(GroupId, SubjectId)>,
    genome: Seq<Dna>,
    quota: Map<LecturerId, usize>,
)
    requires
        forall|i: int| 0 <= i < scanned(meetings, genome) ==> quota_left(quota, #[trigger] genome[i].0.1) == 0,
    ensures
        fitness(meetings, genome, quota) == -repeated_slots(meetings, genome, scanned(meetings, genome)),
{
    lemma_exhausted_prefix(meetings, genome, quota, scanned(meetings, genome));
}

/// Every fitness lies between minus and plus the number of meetings.
pub proof fn lemma_fitness_bounds(
    meetings: Seq<(GroupId, SubjectId)>,
    genome: Seq<Dna>,
    quota: Map<LecturerId, usize>,
)
    ensures
        -(meetings.len() as int) <= fitness(meetings, genome, quota) <= meetings.len(),
{
    lemma_scan_bounds(meetings, genome, quota, scanned(meetings, genome));
}

fn holds_pair(v: &Vec<(usize, usize)>, p: (usize, usize)) -> (r: bool)
    ensures
        r == v@.contains(p),
{
    let mut j: usize = 0;
    while j < v.len()
        invariant
            j <= v@.len(),
            forall|k: int| 0 <= k < j ==> v@[k] != p,
        decreases v@.len() - j,
    {
        if v[j].0 == p.0 && v[j].1 == p.1 {
            return true;
        }
        j += 1;
    }
    false
}

impl Timetable {
    /// Scores `genome` against the meeting list: see `fitness`.
    pub fn fitness_of(&self, genome: &Genome) -> (r: i64)
        requires
            self.wf(),
        ensures
            r == fitness(self.meetings@, genome@, self.problem.quota()),
            -(self.meetings@.len() as int) <= r <= self.meetings@.len(),
    {
        let ghost meetings = self.meetings@;
        let ghost quota = self.problem.quota();
        let n: usize = if self.meetings.len() <= genome.len() {
            self.meetings.len()
        } else {
            genome.len()
        };
        let mut fitness: i64 = 0;
        let mut used_group_hours: Vec<(GroupId, usize)> = Vec::new();
        let mut used_lecturer_hours: Vec<(LecturerId, usize)> = Vec::new();
        let mut free_lecturer_hours: HashMap<LecturerId, usize> = self.problem.lecturer_requirements.clone();
        let mut i: usize = 0;
        while i < n
            invariant
                self.wf(),
                meetings == self.meetings@,
                quota == self.problem.quota(),
                n == scanned(meetings, genome@),
                i <= n,
                forall|p| #[trigger] used_group_hours@.contains(p) <==> scan(meetings, genome@, quota, i as nat).groups_used.contains(p),
                forall|p| #[trigger] used_lecturer_hours@.contains(p) <==> scan(meetings, genome@, quota, i as nat).lecturers_used.contains(p),
                free_lecturer_hours@ == scan(meetings, genome@, quota, i as nat).free,
                fitness == scan(meetings, genome@, quota, i as nat).score,
                -(i as int) <= fitness <= i,
            decreases n - i,
        {
            let ghost s = scan(meetings, genome@, quota, i as nat);
            let group = self.meetings[i].0;
            let lecturer = genome[i].0.1;
            let hour = genome[i].0.2;
            let satisfies_group = !holds_pair(&used_group_hours, (group, hour));
            proof {
                lemma_push_contains(used_group_hours@, (group, hour));
                lemma_push_contains(used_lecturer_hours@, (lecturer, hour));
            }
            if satisfies_group {
                used_group_hours.push((group, hour));
            }
            let mut satisfies_lecturer = true;
            let left: usize = match free_lecturer_hours.get(&lecturer) {
                Some(h) => *h,
                None => 0,
            };
            if left == 0 {
                satisfies_lecturer = false;
            }
            if holds_pair(&used_lecturer_hours, (lecturer, hour)) {
                satisfies_lecturer = false;
            }
            if satisfies_lecturer {
                free_lecturer_hours.insert(lecturer, left - 1);
                used_lecturer_hours.push((lecturer, hour));
            }
            if satisfies_group && satisfies_lecturer {
                fitness += 1;
            } else if !satisfies_group && !satisfies_lecturer {
                fitness -= 1;
            }
            i += 1;
        }
        fitness
    }
}


/// Sum of a batch of fitness values.
pub open spec fn total(values: Seq<i64>) -> int
    decreases values.len(),
{
    if values.len() == 0 {
        0
    } else {
        total(values.drop_last()) + values.last()
    }
}

/// `total / n` rounded to the nearest integer, halves away from zero; zero
/// for an empty batch.
pub open spec fn rounded_mean(total: int, n: int) -> int {
    if n <= 0 {
        0
    } else {
        let a = if total >= 0 {
            total
        } else {
            -total
        };
        let m = a / n + if 2 * (a % n) >= n {
            1int
        } else {
            0
        };
        if total >= 0 {
            m
        } else {
            -m
        }
    }
}

/// The average of a batch of fitness values, rounded to the nearest integer.
pub fn average(values: &Vec<i64>) -> (r: i64)
    ensures
        r == rounded_mean(total(values@), values@.len() as int),
{
    let n = values.len();
    let mut sum: i128 = 0;
    let mut i: usize = 0;
    while i < n
        invariant
            n == values@.len(),
            i <= n,
            sum == total(values@.take(i as int)),
            -(i as int) * 0x8000_0000_0000_0000 <= sum <= (i as int) * 0x7fff_ffff_ffff_ffff,
        decreases n - i,
    {
        assert(values@.take(i + 1).drop_last() =~= values@.take(i as int));
        sum = sum + values[i] as i128;
        i += 1;
    }
    assert(values@.take(n as int) =~= values@);
    if n == 0 {
        return 0;
    }
    let a: u128 = if sum >= 0 { sum as u128 } else { (-sum) as u128 };
    let q: u128 = a / (n as u128);
    let rem: u128 = a % (n as u128);
    proof {
        vstd::arithmetic::div_mod::lemma_fundamental_div_mod(a as int, n as int);
        let nn = n as int;
        let qq = q as int;
        let rr = rem as int;
        let aa = a as int;
        if sum >= 0 {
            assert(qq <= 0x7fff_ffff_ffff_ffff) by (nonlinear_arith)
                requires aa == nn * qq + rr, 0 <= rr < nn, aa <= nn * 0x7fff_ffff_ffff_ffff, nn > 0;
            assert(qq == 0x7fff_ffff_ffff_ffff ==> rr == 0) by (nonlinear_arith)
                requires aa == nn * qq + rr, 0 <= rr < nn, aa <= nn * 0x7fff_ffff_ffff_ffff, nn > 0;
        } else {
            assert(qq <= 0x8000_0000_0000_0000) by (nonlinear_arith)
                requires aa == nn * qq + rr, 0 <= rr < nn, aa <= nn * 0x8000_0000_0000_0000, nn > 0;
            assert(qq == 0x8000_0000_0000_0000 ==> rr == 0) by (nonlinear_arith)
                requires aa == nn * qq + rr, 0 <= rr < nn, aa <= nn * 0x8000_0000_0000_0000, nn > 0;
        }
    }
    let m: u128 = if 2 * rem >= n as u128 { q + 1 } else { q };
    if sum >= 0 {
        m as i64
    } else {
        (-(m as i128)) as i64
    }
}

impl Timetable {
    /// The best score a genome can reach: one point per meeting.
    pub fn highest_possible_fitness(&self) -> (r: i64)
        requires
            self.wf(),
        ensures
            r == self.meetings@.len(),
    {
        self.meetings.len() as i64
    }

    /// The worst score a genome can reach: minus one point per meeting.
    pub fn lowest_possible_fitness(&self) -> (r: i64)
        requires
            self.wf(),
        ensures
            r == -(self.meetings@.len() as int),
    {
        -(self.meetings.len() as i64)
    }
}

} // verus!
