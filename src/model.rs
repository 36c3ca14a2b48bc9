use std::collections::HashMap;
use vstd::prelude::*;

verus! {

broadcast use vstd::std_specs::hash::group_hash_axioms;

pub type GroupId = usize;

pub type SubjectId = usize;

pub type LecturerId = usize;

/// The number of discrete hours a meeting can be placed in.
pub const HOURS: usize = 20;

/// One gene: the (subject, lecturer, hour) assigned to one meeting.
#[derive(Debug, Clone, Copy, PartialEq, Eq)]
pub struct Dna(pub (SubjectId, LecturerId, usize));

/// A candidate schedule: one gene per meeting, aligned by position.
pub type Genome = Vec<Dna>;

/// The immutable description of what has to be scheduled.
#[derive(Debug, Clone)]
pub struct Problem {
    /// (subject, hours) pairs for each group.
    pub group_requirements: HashMap<GroupId, Vec<(SubjectId, usize)>>,
    /// Total hours each lecturer may teach.
    pub lecturer_requirements: HashMap<LecturerId, usize>,
    /// Lecturers eligible to teach each subject.
    pub subject_requirements: HashMap<SubjectId, Vec<LecturerId>>,
}

impl Problem {
    pub fn new(
        group_requirements: HashMap<GroupId, Vec<(SubjectId, usize)>>,
        lecturer_requirements: HashMap<LecturerId, usize>,
        subject_requirements: HashMap<SubjectId, Vec<LecturerId>>,
    ) -> (r: Self)
        ensures
            r.group_requirements@ == group_requirements@,
            r.lecturer_requirements@ == lecturer_requirements@,
            r.subject_requirements@ == subject_requirements@,
    {
        Self { group_requirements, lecturer_requirements, subject_requirements }
    }

    /// Lecturers eligible for `subject` (empty when the subject is unknown).
    pub open spec fn eligible(&self, subject: SubjectId) -> Seq<LecturerId> {
        if self.subject_requirements@.contains_key(subject) {
            self.subject_requirements@[subject]@
        } else {
            Seq::empty()
        }
    }

    /// Hour quota of each listed lecturer (an unlisted one has none: see `quota_left`).
    pub open spec fn quota(&self) -> Map<LecturerId, usize> {
        self.lecturer_requirements@
    }
}

/// The meetings of one group: each (subject, hours) pair repeated `hours` times.
pub open spec fn expand_group(group: GroupId, reqs: Seq<(SubjectId, usize)>) -> Seq<
    (GroupId, SubjectId),
>
    decreases reqs.len(),
{
    if reqs.len() == 0 {
        Seq::empty()
    } else {
        let (subject, hours) = reqs.last();
        expand_group(group, reqs.drop_last()) + Seq::new(hours as nat, |_i: int| (group, subject))
    }
}

/// The meeting list: the groups in the given order, each expanded in turn.
pub open spec fn expand_all(
    groups: Seq<GroupId>,
    reqs: Map<GroupId, Vec<(SubjectId, usize)>>,
) -> Seq<(GroupId, SubjectId)>
    decreases groups.len(),
{
    if groups.len() == 0 {
        Seq::empty()
    } else {
        expand_all(groups.drop_last(), reqs) + expand_group(groups.last(), reqs[groups.last()]@)
    }
}

/// Why a problem cannot be turned into a meeting list.
#[derive(Debug, Clone, Copy, PartialEq, Eq)]
pub enum ConfigError {
    /// A group in the given order has no requirements.
    UnknownGroup(GroupId),
    /// The order does not list every group exactly once.
    GroupOrder,
    /// A required subject has no eligible lecturer.
    NoLecturerFor(SubjectId),
    /// More meetings than a fitness score can count.
    TooManyMeetings,
}

/// The problem together with its flattened meeting list, which fixes the
/// meaning of every genome position.
#[derive(Debug, Clone)]
pub struct Timetable {
    pub problem: Problem,
    /// The group order the meeting list was expanded in.
    pub groups: Vec<GroupId>,
    /// (group, subject) of each genome position.
    pub meetings: Vec<(GroupId, SubjectId)>,
}

impl Timetable {
    /// The meeting list is the expansion of the groups, and every meeting's
    /// subject has at least one eligible lecturer.
    pub open spec fn wf(&self) -> bool {
        &&& forall|i: int|
            0 <= i < self.groups@.len() ==> self.problem.group_requirements@.contains_key(
                #[trigger] self.groups@[i],
            )
        &&& self.meetings@ == expand_all(self.groups@, self.problem.group_requirements@)
        &&& self.meetings@.len() <= i64::MAX
        &&& forall|i: int|
            0 <= i < self.meetings@.len() ==> self.problem.eligible(
                (#[trigger] self.meetings@[i]).1,
            ).len() > 0
    }

    /// A gene that fits meeting `i`: its subject, an eligible lecturer, a valid hour.
    pub open spec fn gene_fits(&self, i: int, d: Dna) -> bool {
        &&& d.0.0 == self.meetings@[i].1
        &&& self.problem.eligible(d.0.0).contains(d.0.1)
        &&& d.0.2 < HOURS
    }

    /// A genome of the right length whose every gene fits its meeting.
    pub open spec fn valid_genome(&self, g: Seq<Dna>) -> bool {
        &&& g.len() == self.meetings@.len()
        &&& forall|i: int| 0 <= i < g.len() ==> self.gene_fits(i, #[trigger] g[i])
    }

    /// Expands the problem's groups, in the order given, into the meeting list.
    /// Fails on a group without requirements, then on an order that does not
    /// list each group once, then on a required subject without an eligible
    /// lecturer, then on a meeting list too long to score.
    pub fn new(problem: Problem, groups: Vec<GroupId>) -> (r: Result<Timetable, ConfigError>)
        ensures
            !groups_known(problem, groups@) ==> match r {
                Err(ConfigError::UnknownGroup(g)) => groups@.contains(g)
                    && !problem.group_requirements@.contains_key(g),
                _ => false,
            },
            groups_known(problem, groups@) && !lists_each_group_once(problem, groups@) ==> r
                == Err::<Timetable, ConfigError>(ConfigError::GroupOrder),
            groups_known(problem, groups@) && lists_each_group_once(problem, groups@)
                && !subjects_staffed(problem, groups@) ==> match r {
                Err(ConfigError::NoLecturerFor(s)) => problem.eligible(s).len() == 0
                    && exists|i: int, j: int|
                    0 <= i < groups@.len() && 0 <= j < problem.group_requirements@[groups@[i]]@.len()
                        && #[trigger] problem.group_requirements@[groups@[i]]@[j].0 == s,
                _ => false,
            },
            groups_known(problem, groups@) && lists_each_group_once(problem, groups@)
                && subjects_staffed(problem, groups@) ==> match r {
                Ok(t) => {
                    &&& t.wf()
                    &&& t.problem == problem
                    &&& t.groups@ == groups@
                    &&& t.meetings@ == expand_all(groups@, problem.group_requirements@)
                },
                Err(ConfigError::TooManyMeetings) => expand_all(
                    groups@,
                    problem.group_requirements@,
                ).len() > i64::MAX,
                _ => false,
            },
    {
        let n = groups.len();
        let mut i: usize = 0;
        while i < n
            invariant
                n == groups@.len(),
                i <= n,
                forall|k: int| 0 <= k < i ==> problem.group_requirements@.contains_key(#[trigger] groups@[k]),
            decreases n - i,
        {
            if !problem.group_requirements.contains_key(&groups[i]) {
                return Err(ConfigError::UnknownGroup(groups[i]));
            }
            i += 1;
        }
        i = 0;
        while i < n
            invariant
                n == groups@.len(),
                i <= n,
                groups_known(problem, groups@),
                forall|a: int, b: int| 0 <= a < b < i ==> groups@[a] != groups@[b],
            decreases n - i,
        {
            let mut j: usize = 0;
            while j < i
                invariant
                    n == groups@.len(),
                    j <= i < n,
                    groups_known(problem, groups@),
                    forall|a: int, b: int| 0 <= a < b < i ==> groups@[a] != groups@[b],
                    forall|a: int| 0 <= a < j ==> groups@[a] != groups@[i as int],
                decreases i - j,
            {
                if groups[j] == groups[i] {
                    assert(!groups@.no_duplicates());
                    return Err(ConfigError::GroupOrder);
                }
                j += 1;
            }
            i += 1;
        }
        assert(groups@.no_duplicates());
        proof {
            groups@.unique_seq_to_set();
            assert(groups@.to_set().subset_of(problem.group_requirements@.dom()));
        }
        if groups.len() != problem.group_requirements.len() {
            return Err(ConfigError::GroupOrder);
        }
        proof {
            vstd::set_lib::lemma_subset_equality(groups@.to_set(), problem.group_requirements@.dom());
        }
        i = 0;
        while i < n
            invariant
                n == groups@.len(),
                i <= n,
                groups_known(problem, groups@),
                lists_each_group_once(problem, groups@),
                forall|a: int, b: int|
                    0 <= a < i && 0 <= b < problem.group_requirements@[groups@[a]]@.len()
                        ==> problem.eligible(
                        (#[trigger] problem.group_requirements@[groups@[a]]@[b]).0,
                    ).len() > 0,
            decreases n - i,
        {
            let reqs = problem.group_requirements.get(&groups[i]).unwrap();
            let mut j: usize = 0;
            while j < reqs.len()
                invariant
                    n == groups@.len(),
                    i < n,
                    groups_known(problem, groups@),
                    lists_each_group_once(problem, groups@),
                    reqs@ == problem.group_requirements@[groups@[i as int]]@,
                    j <= reqs@.len(),
                    forall|b: int| 0 <= b < j ==> problem.eligible((#[trigger] reqs@[b]).0).len() > 0,
                decreases reqs@.len() - j,
            {
                let subject = reqs[j].0;
                let staffed = match problem.subject_requirements.get(&subject) {
                    Some(l) => l.len() > 0,
                    None => false,
                };
                if !staffed {
                    return Err(ConfigError::NoLecturerFor(subject));
                }
                j += 1;
            }
            i += 1;
        }
        let mut meetings: Vec<(GroupId, SubjectId)> = Vec::new();
        i = 0;
        while i < n
            invariant
                n == groups@.len(),
                i <= n,
                groups_known(problem, groups@),
                subjects_staffed(problem, groups@),
                meetings@ == expand_all(groups@.take(i as int), problem.group_requirements@),
                forall|t: int| 0 <= t < meetings@.len() ==> problem.eligible((#[trigger] meetings@[t]).1).len() > 0,
            decreases n - i,
        {
            let group = groups[i];
            let reqs = problem.group_requirements.get(&group).unwrap();
            let ghost before = meetings@;
            let mut j: usize = 0;
            while j < reqs.len()
                invariant
                    n == groups@.len(),
                    i < n,
                    group == groups@[i as int],
                    subjects_staffed(problem, groups@),
                    reqs@ == problem.group_requirements@[group]@,
                    j <= reqs@.len(),
                    meetings@ == before + expand_group(group, reqs@.take(j as int)),
                    forall|t: int| 0 <= t < meetings@.len() ==> problem.eligible((#[trigger] meetings@[t]).1).len() > 0,
                decreases reqs@.len() - j,
            {
                let (subject, hours) = reqs[j];
                assert(problem.eligible(subject).len() > 0) by {
                    assert(problem.group_requirements@[groups@[i as int]]@[j as int].0 == subject);
                }
                let ghost mid = meetings@;
                let mut k: usize = 0;
                while k < hours
                    invariant
                        k <= hours,
                        problem.eligible(subject).len() > 0,
                        meetings@ == mid + Seq::new(k as nat, |_i: int| (group, subject)),
                        forall|t: int| 0 <= t < meetings@.len() ==> problem.eligible((#[trigger] meetings@[t]).1).len() > 0,
                    decreases hours - k,
                {
                    meetings.push((group, subject));
                    k += 1;
                    assert(meetings@ =~= mid + Seq::new(k as nat, |_i: int| (group, subject)));
                }
                assert(reqs@.take(j + 1).drop_last() =~= reqs@.take(j as int));
                j += 1;
            }
            assert(reqs@.take(reqs@.len() as int) =~= reqs@);
            assert(groups@.take(i + 1).drop_last() =~= groups@.take(i as int));
            i += 1;
        }
        assert(groups@.take(n as int) =~= groups@);
        if meetings.len() as u128 > i64::MAX as u128 {
            return Err(ConfigError::TooManyMeetings);
        }
        Ok(Timetable { problem, groups, meetings })
    }
}

/// Every group in the order has requirements.
pub open spec fn groups_known(problem: Problem, groups: Seq<GroupId>) -> bool {
    forall|i: int| 0 <= i < groups.len() ==> problem.group_requirements@.contains_key(#[trigger] groups[i])
}

/// The order lists every group of the problem, each once.
pub open spec fn lists_each_group_once(problem: Problem, groups: Seq<GroupId>) -> bool {
    &&& groups.no_duplicates()
    &&& groups.to_set() == problem.group_requirements@.dom()
}

/// Every subject required by a group in the order has an eligible lecturer.
pub open spec fn subjects_staffed(problem: Problem, groups: Seq<GroupId>) -> bool {
    forall|i: int, j: int|
        0 <= i < groups.len() && 0 <= j < problem.group_requirements@[groups[i]]@.len()
            ==> problem.eligible((#[trigger] problem.group_requirements@[groups[i]]@[j]).0).len() > 0
}

} // verus!
