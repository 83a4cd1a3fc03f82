//! The records of the tracker: tasks, their status and priority, the form
//! that creates one, the search query, and the dashboard statistics.
use vstd::prelude::*;

use crate::text::str_eq;

verus! {

/// One stored task.
#[derive(Debug, Clone)]
pub struct Task {
    pub id: i64,
    pub title: String,
    pub description: String,
    pub subject: String,
    pub status: String,
    pub priority: String,
    pub created_at: String,
    /// When the assignment is due, e.g. "2026-08-20T14:30".
    pub due_at: String,
    /// Set once the task has been completed.
    pub completed_at: Option<String>,
}

impl Task {
    /// The task's status reads exactly "Completed".
    pub open spec fn status_completed(self) -> bool {
        self.status@ == "Completed"@
    }

    pub fn is_completed(&self) -> (r: bool)
        ensures
            r == self.status_completed(),
    {
        str_eq(self.status.as_str(), "Completed")
    }
}

/// The two statuses a task can have.
#[derive(Debug, Clone, Copy, PartialEq, Eq, Structural)]
pub enum TaskStatus {
    Pending,
    Completed,
}

impl TaskStatus {
    /// The text a status is stored as.
    pub open spec fn text(self) -> Seq<char> {
        match self {
            TaskStatus::Pending => "Pending"@,
            TaskStatus::Completed => "Completed"@,
        }
    }

    /// The status a text names, if any.
    pub open spec fn parse(s: Seq<char>) -> Option<TaskStatus> {
        if s == "Pending"@ {
            Some(TaskStatus::Pending)
        } else if s == "Completed"@ {
            Some(TaskStatus::Completed)
        } else {
            None
        }
    }

    pub fn as_str(&self) -> (r: &'static str)
        ensures
            r@ == self.text(),
    {
        match self {
            TaskStatus::Pending => "Pending",
            TaskStatus::Completed => "Completed",
        }
    }

    pub fn from_str(value: &str) -> (r: Option<TaskStatus>)
        ensures
            r == TaskStatus::parse(value@),
    {
        if str_eq(value, "Pending") {
            Some(TaskStatus::Pending)
        } else if str_eq(value, "Completed") {
            Some(TaskStatus::Completed)
        } else {
            None
        }
    }
}

/// The three priorities a task can have.
#[derive(Debug, Clone, Copy, PartialEq, Eq, Structural)]
pub enum TaskPriority {
    Low,
    Medium,
    High,
}

impl TaskPriority {
    /// The text a priority is stored as.
    pub open spec fn text(self) -> Seq<char> {
        match self {
            TaskPriority::Low => "Low"@,
            TaskPriority::Medium => "Medium"@,
            TaskPriority::High => "High"@,
        }
    }

    /// The priority a text names, if any.
    pub open spec fn parse(s: Seq<char>) -> Option<TaskPriority> {
        if s == "Low"@ {
            Some(TaskPriority::Low)
        } else if s == "Medium"@ {
            Some(TaskPriority::Medium)
        } else if s == "High"@ {
            Some(TaskPriority::High)
        } else {
            None
        }
    }

    pub fn as_str(&self) -> (r: &'static str)
        ensures
            r@ == self.text(),
    {
        match self {
            TaskPriority::Low => "Low",
            TaskPriority::Medium => "Medium",
            TaskPriority::High => "High",
        }
    }

    pub fn from_str(value: &str) -> (r: Option<TaskPriority>)
        ensures
            r == TaskPriority::parse(value@),
    {
        if str_eq(value, "Low") {
            Some(TaskPriority::Low)
        } else if str_eq(value, "Medium") {
            Some(TaskPriority::Medium)
        } else if str_eq(value, "High") {
            Some(TaskPriority::High)
        } else {
            None
        }
    }
}

/// Reading a status back from its text gives the same status.
pub proof fn lemma_status_text_round_trip(s: TaskStatus)
    ensures
        TaskStatus::parse(s.text()) == Some(s),
{
    reveal_strlit("Pending");
    reveal_strlit("Completed");
    assert("Pending"@.len() != "Completed"@.len());
}

/// A text names a status only if it is that status's text.
pub proof fn lemma_status_parse_inverse(v: Seq<char>, s: TaskStatus)
    requires
        TaskStatus::parse(v) == Some(s),
    ensures
        s.text() == v,
{
}

/// Reading a priority back from its text gives the same priority.
pub proof fn lemma_priority_text_round_trip(p: TaskPriority)
    ensures
        TaskPriority::parse(p.text()) == Some(p),
{
    reveal_strlit("Low");
    reveal_strlit("Medium");
    reveal_strlit("High");
    assert("Low"@[0] != "High"@[0]);
    assert("Low"@.len() != "Medium"@.len());
    assert("High"@.len() != "Medium"@.len());
}

/// A text names a priority only if it is that priority's text.
pub proof fn lemma_priority_parse_inverse(v: Seq<char>, p: TaskPriority)
    requires
        TaskPriority::parse(v) == Some(p),
    ensures
        p.text() == v,
{
}

/// The "Add Task" form.
#[derive(Debug)]
pub struct NewTask {
    pub title: String,
    pub description: String,
    pub subject: String,
    pub priority: String,
    pub due_at: String,
}

/// Search and filter options; each one may be left out.
#[derive(Debug)]
pub struct TaskQuery {
    pub search: Option<String>,
    pub status: Option<String>,
    pub priority: Option<String>,
}

/// How many tasks there are for each subject: each subject occurs once.
#[derive(Debug)]
pub struct SubjectCounts {
    subjects: Vec<String>,
    counts: Vec<usize>,
}

/// The map from each key to the count at the same position; with distinct
/// keys every key has exactly one count.
pub open spec fn counts_map(keys: Seq<Seq<char>>, vals: Seq<usize>) -> Map<Seq<char>, nat> {
    Map::new(
        |k: Seq<char>| keys.contains(k),
        |k: Seq<char>| vals[choose|j: int| 0 <= j < keys.len() && keys[j] == k] as nat,
    )
}

/// Sum of a sequence of counts.
pub open spec fn seq_sum(s: Seq<usize>) -> int
    decreases s.len(),
{
    if s.len() == 0 {
        0
    } else {
        seq_sum(s.drop_last()) + s.last()
    }
}

proof fn lemma_counts_map_at(keys: Seq<Seq<char>>, vals: Seq<usize>, i: int)
    requires
        keys.no_duplicates(),
        keys.len() == vals.len(),
        0 <= i < keys.len(),
    ensures
        counts_map(keys, vals).contains_key(keys[i]),
        counts_map(keys, vals)[keys[i]] == vals[i],
{
    let k = keys[i];
    assert(keys.contains(k));
    let j = choose|j: int| 0 <= j < keys.len() && keys[j] == k;
    assert(keys[j] == k);
}

proof fn lemma_counts_map_update(keys: Seq<Seq<char>>, vals: Seq<usize>, i: int, v: usize)
    requires
        keys.no_duplicates(),
        keys.len() == vals.len(),
        0 <= i < keys.len(),
    ensures
        counts_map(keys, vals.update(i, v)) =~= counts_map(keys, vals).insert(keys[i], v as nat),
{
    let m0 = counts_map(keys, vals);
    let m1 = counts_map(keys, vals.update(i, v));
    lemma_counts_map_at(keys, vals.update(i, v), i);
    assert forall|k: Seq<char>| m1.contains_key(k) && k != keys[i] implies m1[k] == m0[k] by {
        let j = choose|j: int| 0 <= j < keys.len() && keys[j] == k;
        lemma_counts_map_at(keys, vals.update(i, v), j);
        lemma_counts_map_at(keys, vals, j);
    }
}

proof fn lemma_counts_map_push(keys: Seq<Seq<char>>, vals: Seq<usize>, k: Seq<char>, v: usize)
    requires
        keys.no_duplicates(),
        keys.len() == vals.len(),
        !keys.contains(k),
    ensures
        keys.push(k).no_duplicates(),
        counts_map(keys.push(k), vals.push(v)) =~= counts_map(keys, vals).insert(k, v as nat),
{
    let ks = keys.push(k);
    let vs = vals.push(v);
    assert forall|a: int, b: int| 0 <= a < ks.len() && 0 <= b < ks.len() && a != b implies ks[a]
        != ks[b] by {
        if a == keys.len() {
            assert(keys.contains(ks[b]));
        } else if b == keys.len() {
            assert(keys.contains(ks[a]));
        }
    }
    let m0 = counts_map(keys, vals);
    let m1 = counts_map(ks, vs);
    lemma_counts_map_at(ks, vs, keys.len() as int);
    assert forall|x: Seq<char>| #[trigger] m1.contains_key(x) <==> m0.insert(k, v as nat).contains_key(x) by {
        if keys.contains(x) {
            let j = choose|j: int| 0 <= j < keys.len() && keys[j] == x;
            assert(ks[j] == x);
        }
        if ks.contains(x) && x != k {
            let j = choose|j: int| 0 <= j < ks.len() && ks[j] == x;
            assert(keys[j] == x);
        }
    }
    assert forall|x: Seq<char>| m1.contains_key(x) && x != k implies m1[x] == m0[x] by {
        let j = choose|j: int| 0 <= j < keys.len() && keys[j] == x;
        lemma_counts_map_at(ks, vs, j);
        lemma_counts_map_at(keys, vals, j);
    }
}

proof fn lemma_seq_sum_push(s: Seq<usize>, v: usize)
    ensures
        seq_sum(s.push(v)) == seq_sum(s) + v,
{
    assert(s.push(v).drop_last() =~= s);
}

proof fn lemma_seq_sum_update(s: Seq<usize>, i: int, v: usize)
    requires
        0 <= i < s.len(),
    ensures
        seq_sum(s.update(i, v)) == seq_sum(s) - s[i] + v,
        s[i] <= seq_sum(s),
    decreases s.len(),
{
    if i < s.len() - 1 {
        lemma_seq_sum_update(s.drop_last(), i, v);
        assert(s.update(i, v).drop_last() =~= s.drop_last().update(i, v));
    } else {
        assert(s.update(i, v).drop_last() =~= s.drop_last());
        lemma_seq_sum_nonneg(s.drop_last());
    }
}

proof fn lemma_seq_sum_nonneg(s: Seq<usize>)
    ensures
        seq_sum(s) >= 0,
    decreases s.len(),
{
    if s.len() > 0 {
        lemma_seq_sum_nonneg(s.drop_last());
    }
}

impl SubjectCounts {
    #[verifier::type_invariant]
    spec fn well_formed(self) -> bool {
        &&& self.subjects.len() == self.counts.len()
        &&& self.keys().no_duplicates()
    }

    /// The subjects, in the order they were first counted.
    pub closed spec fn keys(self) -> Seq<Seq<char>> {
        self.subjects@.map_values(|s: String| s@)
    }

    /// The count of each subject, position by position with `keys`.
    pub closed spec fn values(self) -> Seq<usize> {
        self.counts@
    }

    /// The sum of all counts.
    pub open spec fn total(self) -> int {
        seq_sum(self.values())
    }

    /// How the positional model describes the tally: as many counts as
    /// subjects, no subject twice, the subjects are the map's keys, and the
    /// count at each position is that subject's count.
    pub open spec fn entries_describe_view(self) -> bool {
        &&& self.values().len() == self.keys().len()
        &&& self.keys().no_duplicates()
        &&& self.keys().to_set() == self@.dom()
        &&& self.keys().len() == self@.len()
        &&& forall|j: int|
            0 <= j < self.keys().len() ==> #[trigger] self@[self.keys()[j]] == self.values()[j]
    }

    proof fn lemma_entries_describe_view(self)
        requires
            self.well_formed(),
        ensures
            self.entries_describe_view(),
    {
        self.keys().unique_seq_to_set();
        assert(self@.dom() =~= self.keys().to_set());
        assert forall|j: int| 0 <= j < self.keys().len() implies #[trigger] self@[self.keys()[j]]
            == self.values()[j] by {
            lemma_counts_map_at(self.keys(), self.values(), j);
        }
    }

    pub fn new() -> (r: SubjectCounts)
        ensures
            r@ == Map::<Seq<char>, nat>::empty(),
            r.keys() == Seq::<Seq<char>>::empty(),
            r.values() == Seq::<usize>::empty(),
            r.total() == 0,
    {
        let r = SubjectCounts { subjects: Vec::new(), counts: Vec::new() };
        assert(r.keys() =~= Seq::<Seq<char>>::empty());
        assert(r@ =~= Map::<Seq<char>, nat>::empty());
        r
    }

    /// Number of distinct subjects.
    pub fn len(&self) -> (n: usize)
        ensures
            n == self@.len(),
            n == self.keys().len(),
            self.entries_describe_view(),
    {
        proof {
            use_type_invariant(self);
            self.lemma_entries_describe_view();
        }
        self.subjects.len()
    }

    /// The subject at position `i` and its count.
    pub fn entry(&self, i: usize) -> (r: (&String, usize))
        requires
            i < self@.len(),
        ensures
            r.0@ == self.keys()[i as int],
            r.1 == self.values()[i as int],
            self@.contains_key(r.0@),
            self@[r.0@] == r.1,
            self.entries_describe_view(),
    {
        proof {
            use_type_invariant(self);
            self.lemma_entries_describe_view();
            lemma_counts_map_at(self.keys(), self.values(), i as int);
        }
        (&self.subjects[i], self.counts[i])
    }

    /// The count for `subject`, if any task has it.
    pub fn get(&self, subject: &str) -> (r: Option<&usize>)
        ensures
            match r {
                Some(c) => self@.contains_key(subject@) && self@[subject@] == *c,
                None => !self@.contains_key(subject@),
            },
    {
        proof {
            use_type_invariant(self);
        }
        let n = self.subjects.len();
        let mut i: usize = 0;
        while i < n
            invariant
                n == self.subjects.len(),
                self.well_formed(),
                0 <= i <= n,
                forall|j: int| 0 <= j < i ==> self.subjects@[j]@ != subject@,
            decreases n - i,
        {
            if str_eq(self.subjects[i].as_str(), subject) {
                proof {
                    lemma_counts_map_at(self.keys(), self.values(), i as int);
                }
                return Some(&self.counts[i]);
            }
            i = i + 1;
        }
        proof {
            if self.keys().contains(subject@) {
                let j = choose|j: int| 0 <= j < self.keys().len() && self.keys()[j] == subject@;
                assert(self.subjects@[j]@ == subject@);
            }
        }
        None
    }

    /// Counts one more task with `subject`: a new subject starts at one.
    pub fn record(&mut self, subject: &str)
        requires
            old(self).total() < usize::MAX,
        ensures
            final(self)@ == old(self)@.insert(
                subject@,
                if old(self)@.contains_key(subject@) {
                    old(self)@[subject@] + 1
                } else {
                    1
                },
            ),
            final(self).total() == old(self).total() + 1,
            old(self)@.contains_key(subject@) ==> final(self).keys() == old(self).keys(),
            !old(self)@.contains_key(subject@) ==> final(self).keys() == old(self).keys().push(
                subject@,
            ) && final(self).values() == old(self).values().push(1),
    {
        proof {
            use_type_invariant(&*self);
        }
        let mut taken = SubjectCounts::new();
        std::mem::swap(&mut taken, self);
        proof {
            use_type_invariant(&taken);
        }
        let ghost keys0 = taken.keys();
        let ghost vals0 = taken.values();
        let SubjectCounts { mut subjects, mut counts } = taken;
        assert(keys0 == subjects@.map_values(|s: String| s@));
        let n = subjects.len();
        let mut i: usize = 0;
        while i < n
            invariant
                n == subjects.len(),
                n == counts.len(),
                keys0 == subjects@.map_values(|s: String| s@),
                keys0.no_duplicates(),
                vals0 == counts@,
                seq_sum(vals0) < usize::MAX,
                old(self)@ == counts_map(keys0, vals0),
                old(self).total() == seq_sum(vals0),
                old(self).keys() == keys0,
                old(self).values() == vals0,
                0 <= i <= n,
                forall|j: int| 0 <= j < i ==> subjects@[j]@ != subject@,
            decreases n - i,
        {
            if str_eq(subjects[i].as_str(), subject) {
                let c = counts[i];
                proof {
                    lemma_seq_sum_update(counts@, i as int, c);
                    lemma_counts_map_at(keys0, vals0, i as int);
                }
                counts.set(i, c + 1);
                proof {
                    lemma_seq_sum_update(vals0, i as int, (c + 1) as usize);
                    lemma_counts_map_update(keys0, vals0, i as int, (c + 1) as usize);
                    assert(keys0[i as int] == subject@);
                }
                assert(counts@ == vals0.update(i as int, (c + 1) as usize));
                *self = SubjectCounts { subjects, counts };
                assert(self.keys() == keys0);
                assert(self.values() == vals0.update(i as int, (c + 1) as usize));
                return ;
            }
            i = i + 1;
        }
        proof {
            if keys0.contains(subject@) {
                let j = choose|j: int| 0 <= j < keys0.len() && keys0[j] == subject@;
                assert(subjects@[j]@ == subject@);
            }
            lemma_counts_map_push(keys0, vals0, subject@, 1);
            lemma_seq_sum_push(vals0, 1);
        }
        subjects.push(subject.to_owned());
        counts.push(1);
        assert(subjects@.map_values(|s: String| s@) =~= keys0.push(subject@));
        *self = SubjectCounts { subjects, counts };
    }
}

impl View for SubjectCounts {
    type V = Map<Seq<char>, nat>;

    closed spec fn view(&self) -> Map<Seq<char>, nat> {
        counts_map(self.keys(), self.values())
    }
}

/// Dashboard statistics.
#[derive(Debug)]
pub struct TaskStats {
    pub total: usize,
    pub pending: usize,
    pub completed: usize,
    pub high_priority: usize,
    pub by_subject: SubjectCounts,
}

} // verus!
