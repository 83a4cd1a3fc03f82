//! The computations behind the HTTP endpoints: searching and filtering the
//! task list, the completion history, and the dashboard statistics.
use vstd::prelude::*;
use vstd::utf8::encode_utf8;

use crate::errors::AppError;
use crate::models::{NewTask, SubjectCounts, Task, TaskPriority, TaskQuery, TaskStats};
use crate::text::{
    bytes_less, contains_str, has_substring, i64_decimal, int_decimal, is_blank,
    lemma_bytes_less_asymmetric, lemma_bytes_less_irreflexive, lemma_bytes_less_total, lemma_bytes_less_transitive, lowercase,
    str_eq, str_less, text_less, to_lowercase, trim_str, trimmed,
};
use crate::validation::{validate_new_task, validation_outcome};

verus! {

/// A search term (already lowercased) hits a task whose lowercased title
/// or lowercased subject contains it.
pub open spec fn text_hit(title_lower: Seq<char>, subject_lower: Seq<char>, term_lower: Seq<char>) -> bool {
    has_substring(title_lower, term_lower) || has_substring(subject_lower, term_lower)
}

/// The search part of a query: a missing or blank term lets every task
/// through; otherwise the lowercased term must occur in the lowercased
/// title or subject.
pub open spec fn search_admits(search: Option<String>, t: Task) -> bool {
    match search {
        Some(term) => is_blank(term@) || text_hit(
            lowercase(t.title@),
            lowercase(t.subject@),
            lowercase(term@),
        ),
        None => true,
    }
}

/// An exact-match filter: a missing, empty or "All" value lets every task
/// through; otherwise the field must equal it.
pub open spec fn field_admits(filter: Option<String>, value: Seq<char>) -> bool {
    match filter {
        Some(f) => f@.len() == 0 || f@ == "All"@ || value == f@,
        None => true,
    }
}

/// A task passes a query when it passes the search, the status filter and
/// the priority filter.
pub open spec fn query_admits(q: TaskQuery, t: Task) -> bool {
    &&& search_admits(q.search, t)
    &&& field_admits(q.status, t.status@)
    &&& field_admits(q.priority, t.priority@)
}

/// Whether a lowercased term occurs in a lowercased title or subject.
pub fn search_hit(title_lower: &str, subject_lower: &str, term_lower: &str) -> (r: bool)
    ensures
        r == text_hit(title_lower@, subject_lower@, term_lower@),
{
    contains_str(title_lower, term_lower) || contains_str(subject_lower, term_lower)
}

fn field_passes(filter: &Option<String>, value: &String) -> (r: bool)
    ensures
        r == field_admits(*filter, value@),
{
    match filter {
        Some(f) => {
            if !f.as_str().is_empty() && !str_eq(f.as_str(), "All") {
                str_eq(value.as_str(), f.as_str())
            } else {
                true
            }
        },
        None => true,
    }
}

fn task_matches(task: &Task, query: &TaskQuery) -> (r: bool)
    ensures
        r == query_admits(*query, *task),
{
    let search_ok = match &query.search {
        Some(term) => {
            if !trim_str(term.as_str()).is_empty() {
                let term_lower = to_lowercase(term.as_str());
                let title_lower = to_lowercase(task.title.as_str());
                let subject_lower = to_lowercase(task.subject.as_str());
                search_hit(title_lower.as_str(), subject_lower.as_str(), term_lower.as_str())
            } else {
                true
            }
        },
        None => true,
    };
    search_ok && field_passes(&query.status, &task.status) && field_passes(
        &query.priority,
        &task.priority,
    )
}

/// The tasks that pass the query, in their original order.
pub fn filter_tasks(tasks: Vec<Task>, query: &TaskQuery) -> (r: Vec<Task>)
    ensures
        r@ == tasks@.filter(|t: Task| query_admits(*query, t)),
{
    let ghost src = tasks@;
    let ghost pred = |t: Task| query_admits(*query, t);
    let mut out: Vec<Task> = Vec::new();
    for task in it: tasks.into_iter()
        invariant
            it.seq() == src,
            pred == (|t: Task| query_admits(*query, t)),
            out@ == src.take(it.index()).filter(pred),
    {
        let ghost i = it.index();
        let keep = task_matches(&task, query);
        proof {
            assert(src.take(i + 1) =~= src.take(i).push(task));
            src.take(i).lemma_filter_push(task, pred);
        }
        if keep {
            out.push(task);
        }
    }
    proof {
        assert(src.take(src.len() as int) =~= src);
    }
    out
}

/// What a task's history position goes by: when it was completed, if ever.
pub open spec fn completion_key(t: Task) -> Option<Seq<char>> {
    match t.completed_at {
        Some(s) => Some(s@),
        None => None,
    }
}

/// The order of `Option<String>`: no value comes before any value, and
/// values go by the order of strings.
pub open spec fn key_less(a: Option<Seq<char>>, b: Option<Seq<char>>) -> bool {
    match a {
        None => b is Some,
        Some(x) => match b {
            Some(y) => text_less(x, y),
            None => false,
        },
    }
}

/// `a` was completed before `b` (or `a` has no completion time and `b` has one).
pub open spec fn completed_before(a: Task, b: Task) -> bool {
    key_less(completion_key(a), completion_key(b))
}

/// Tasks whose status is "Completed".
pub open spec fn completed_pred() -> spec_fn(Task) -> bool {
    |t: Task| t.status_completed()
}

/// `out` is `src` rearranged, `out[i]` being `src[p[i]]`, so that the most
/// recently completed task comes first and tasks completed at the same time
/// keep the order they had in `src`.
pub open spec fn newest_first_by(src: Seq<Task>, out: Seq<Task>, p: Seq<int>) -> bool {
    &&& p.len() == src.len()
    &&& out.len() == src.len()
    &&& forall|i: int| 0 <= i < out.len() ==> 0 <= #[trigger] p[i] < src.len() && out[i] == src[p[i]]
    &&& forall|i: int, j: int| 0 <= i < j < out.len() ==> #[trigger] p[i] != #[trigger] p[j]
    &&& forall|i: int, j: int|
        0 <= i < j < out.len() ==> !completed_before(#[trigger] out[i], #[trigger] out[j])
    &&& forall|i: int, j: int|
        0 <= i < j < out.len() && !completed_before(#[trigger] out[j], #[trigger] out[i]) ==> p[i]
            < p[j]
}

/// The key order is transitive.
pub proof fn lemma_key_less_transitive(a: Option<Seq<char>>, b: Option<Seq<char>>, c: Option<Seq<char>>)
    requires
        key_less(a, b),
        key_less(b, c),
    ensures
        key_less(a, c),
{
    if a is Some && b is Some && c is Some {
        lemma_bytes_less_transitive(
            encode_utf8(a->0),
            encode_utf8(b->0),
            encode_utf8(c->0),
        );
    }
}

/// No key comes before itself, and never both ways.
pub proof fn lemma_key_less_asymmetric(a: Option<Seq<char>>, b: Option<Seq<char>>)
    requires
        key_less(a, b),
    ensures
        !key_less(b, a),
{
    if a is Some && b is Some {
        lemma_bytes_less_asymmetric(encode_utf8(a->0), encode_utf8(b->0));
    }
}

/// If `a` comes before `c`, any `b` comes after `a` or before `c`.
pub proof fn lemma_key_less_split(a: Option<Seq<char>>, b: Option<Seq<char>>, c: Option<Seq<char>>)
    requires
        key_less(a, c),
    ensures
        key_less(a, b) || key_less(b, c),
{
    if a is Some && b is Some && c is Some {
        let x = encode_utf8(a->0);
        let y = encode_utf8(b->0);
        let z = encode_utf8(c->0);
        if x != y {
            lemma_bytes_less_total(x, y);
            if !bytes_less(x, y) {
                lemma_bytes_less_transitive(y, x, z);
            }
        }
    }
}

fn completed_earlier(a: &Task, b: &Task) -> (r: bool)
    ensures
        r == completed_before(*a, *b),
{
    match &a.completed_at {
        None => b.completed_at.is_some(),
        Some(x) => match &b.completed_at {
            Some(y) => str_less(x.as_str(), y.as_str()),
            None => false,
        },
    }
}

fn completed_only(tasks: Vec<Task>) -> (r: Vec<Task>)
    ensures
        r@ == tasks@.filter(completed_pred()),
{
    let ghost src = tasks@;
    let ghost pred = completed_pred();
    let mut out: Vec<Task> = Vec::new();
    for task in it: tasks.into_iter()
        invariant
            it.seq() == src,
            pred == completed_pred(),
            out@ == src.take(it.index()).filter(pred),
    {
        let ghost i = it.index();
        let keep = task.is_completed();
        proof {
            assert(src.take(i + 1) =~= src.take(i).push(task));
            src.take(i).lemma_filter_push(task, pred);
        }
        if keep {
            out.push(task);
        }
    }
    proof {
        assert(src.take(src.len() as int) =~= src);
    }
    out
}

/// The completed tasks, most recently completed first; tasks completed at
/// the same time keep their order.
pub fn history_tasks(tasks: Vec<Task>) -> (r: Vec<Task>)
    ensures
        exists|p: Seq<int>| newest_first_by(tasks@.filter(completed_pred()), r@, p),
{
    let completed = completed_only(tasks);
    let ghost src = completed@;
    let mut out: Vec<Task> = Vec::new();
    let ghost mut p: Seq<int> = Seq::empty();
    for task in it: completed.into_iter()
        invariant
            it.seq() == src,
            newest_first_by(src.take(it.index()), out@, p),
    {
        let ghost k = it.index();
        let ghost old_out = out@;
        let ghost old_p = p;
        let n = out.len();
        let mut pos: usize = 0;
        while pos < n && !completed_earlier(&out[pos], &task)
            invariant
                n == out.len(),
                out@ == old_out,
                0 <= pos <= n,
                forall|j: int| 0 <= j < pos ==> !completed_before(#[trigger] out@[j], task),
            decreases n - pos,
        {
            pos = pos + 1;
        }
        out.insert(pos, task);
        proof {
            p = old_p.insert(pos as int, k);
            lemma_insert_keeps_order(src, k, old_out, old_p, pos as int, task);
        }
    }
    proof {
        assert(src.take(src.len() as int) =~= src);
    }
    out
}

proof fn lemma_insert_keeps_order(src: Seq<Task>, k: int, old_out: Seq<Task>, old_p: Seq<int>, pos: int, t: Task)
    requires
        0 <= k < src.len(),
        t == src[k],
        newest_first_by(src.take(k), old_out, old_p),
        0 <= pos <= old_out.len(),
        forall|j: int| 0 <= j < pos ==> !completed_before(#[trigger] old_out[j], t),
        pos < old_out.len() ==> completed_before(old_out[pos], t),
    ensures
        newest_first_by(src.take(k + 1), old_out.insert(pos, t), old_p.insert(pos, k)),
{
    let out = old_out.insert(pos, t);
    let p = old_p.insert(pos, k);
    let s = src.take(k + 1);
    assert forall|i: int| 0 <= i < out.len() implies 0 <= #[trigger] p[i] < s.len() && out[i] == s[p[i]] by {
        if i < pos {
            assert(old_out[i] == src.take(k)[old_p[i]]);
        } else if i > pos {
            assert(old_out[i - 1] == src.take(k)[old_p[i - 1]]);
        }
    }
    assert forall|i: int, j: int| 0 <= i < j < out.len() implies #[trigger] p[i] != #[trigger] p[j] by {
        if i < pos && j > pos {
            assert(old_p[i] != old_p[j - 1]);
        } else if i > pos {
            assert(old_p[i - 1] != old_p[j - 1]);
        } else if j < pos {
            assert(old_p[i] != old_p[j]);
        } else if i == pos {
            assert(0 <= old_p[j - 1] < k);
        } else {
            assert(0 <= old_p[i] < k);
        }
    }
    assert forall|i: int, j: int| 0 <= i < j < out.len() implies !completed_before(#[trigger] out[i], #[trigger] out[j]) by {
        if j < pos {
            assert(!completed_before(old_out[i], old_out[j]));
        } else if j == pos {
            assert(!completed_before(old_out[i], t));
        } else if i > pos {
            assert(!completed_before(old_out[i - 1], old_out[j - 1]));
        } else if i == pos {
            let m = j - 1;
            assert(completed_before(old_out[pos], t));
            if m > pos {
                assert(!completed_before(old_out[pos], old_out[m]));
            }
            if completed_before(t, old_out[m]) {
                lemma_key_less_transitive(completion_key(old_out[pos]), completion_key(t), completion_key(old_out[m]));
                if m == pos {
                    lemma_key_less_asymmetric(completion_key(old_out[pos]), completion_key(t));
                }
            }
        } else {
            assert(!completed_before(old_out[i], old_out[j - 1]));
        }
    }
    assert forall|i: int, j: int|
        0 <= i < j < out.len() && !completed_before(#[trigger] out[j], #[trigger] out[i]) implies p[i] < p[j] by {
        if j < pos {
            assert(old_p[i] < old_p[j]);
        } else if j == pos {
            assert(0 <= old_p[i] < k);
        } else if i > pos {
            assert(old_p[i - 1] < old_p[j - 1]);
        } else if i == pos {
            let m = j - 1;
            assert(completed_before(old_out[pos], t));
            if m > pos {
                assert(!completed_before(old_out[pos], old_out[m]));
            }
            lemma_key_less_split(completion_key(old_out[pos]), completion_key(old_out[m]), completion_key(t));
        } else {
            assert(old_p[i] < old_p[j - 1]);
        }
    }
}

/// Tasks whose status reads `v`.
pub open spec fn status_is(v: Seq<char>) -> spec_fn(Task) -> bool {
    |t: Task| t.status@ == v
}

/// Tasks whose priority reads `v`.
pub open spec fn priority_is(v: Seq<char>) -> spec_fn(Task) -> bool {
    |t: Task| t.priority@ == v
}

/// Tasks whose subject reads `k`.
pub open spec fn subject_is(k: Seq<char>) -> spec_fn(Task) -> bool {
    |t: Task| t.subject@ == k
}

/// Dashboard statistics: the number of tasks, of pending, completed and
/// high-priority tasks, and per subject; the subject counts add up to the
/// number of tasks.
pub fn build_stats(tasks: &[Task]) -> (r: TaskStats)
    ensures
        r.total == tasks@.len(),
        r.pending == tasks@.filter(status_is("Pending"@)).len(),
        r.completed == tasks@.filter(status_is("Completed"@)).len(),
        r.high_priority == tasks@.filter(priority_is("High"@)).len(),
        forall|k: Seq<char>|
            #![trigger r.by_subject@.contains_key(k)]
            #![trigger tasks@.filter(subject_is(k))]
            r.by_subject@.contains_key(k) <==> tasks@.filter(subject_is(k)).len() > 0,
        forall|k: Seq<char>| #[trigger]
            r.by_subject@.contains_key(k) ==> r.by_subject@[k] == tasks@.filter(subject_is(k)).len(),
        r.by_subject.total() == r.total,
{
    let ghost src = tasks@;
    let n = tasks.len();
    let mut pending: usize = 0;
    let mut completed: usize = 0;
    let mut high_priority: usize = 0;
    let mut by_subject = SubjectCounts::new();
    let mut i: usize = 0;
    while i < n
        invariant
            n == tasks.len(),
            src == tasks@,
            0 <= i <= n,
            pending == src.take(i as int).filter(status_is("Pending"@)).len(),
            completed == src.take(i as int).filter(status_is("Completed"@)).len(),
            high_priority == src.take(i as int).filter(priority_is("High"@)).len(),
            forall|k: Seq<char>|
                #![trigger by_subject@.contains_key(k)]
                #![trigger src.take(i as int).filter(subject_is(k))]
                by_subject@.contains_key(k) <==> src.take(i as int).filter(subject_is(k)).len() > 0,
            forall|k: Seq<char>| #[trigger]
                by_subject@.contains_key(k) ==> by_subject@[k] == src.take(
                    i as int,
                ).filter(subject_is(k)).len(),
            by_subject.total() == i,
        decreases n - i,
    {
        let t = &tasks[i];
        let ghost before = src.take(i as int);
        proof {
            assert(src.take(i + 1) =~= before.push(*t));
            before.lemma_filter_push(*t, status_is("Pending"@));
            before.lemma_filter_push(*t, status_is("Completed"@));
            before.lemma_filter_push(*t, priority_is("High"@));
            before.lemma_filter_len(status_is("Pending"@));
            before.lemma_filter_len(status_is("Completed"@));
            before.lemma_filter_len(priority_is("High"@));
        }
        if str_eq(t.status.as_str(), "Pending") {
            pending = pending + 1;
        }
        if str_eq(t.status.as_str(), "Completed") {
            completed = completed + 1;
        }
        if str_eq(t.priority.as_str(), "High") {
            high_priority = high_priority + 1;
        }
        let ghost old_counts = by_subject@;
        by_subject.record(t.subject.as_str());
        proof {
            assert forall|k: Seq<char>|
                #![trigger by_subject@.contains_key(k)]
                #![trigger src.take(i + 1).filter(subject_is(k))]
                by_subject@.contains_key(k) <==> src.take(i + 1).filter(subject_is(k)).len() > 0 by {
                before.lemma_filter_push(*t, subject_is(k));
                assert(old_counts.contains_key(k) <==> before.filter(subject_is(k)).len() > 0);
            }
            assert forall|k: Seq<char>| #[trigger]
                by_subject@.contains_key(k) implies by_subject@[k] == src.take(i + 1).filter(
                subject_is(k),
            ).len() by {
                before.lemma_filter_push(*t, subject_is(k));
                assert(old_counts.contains_key(k) <==> before.filter(subject_is(k)).len() > 0);
                if old_counts.contains_key(k) {
                    assert(old_counts[k] == before.filter(subject_is(k)).len());
                }
            }
        }
        i = i + 1;
    }
    proof {
        assert(src.take(n as int) =~= src);
    }
    TaskStats { total: n, pending, completed, high_priority, by_subject }
}

/// The values a valid form stores: its text fields trimmed, and the
/// priority it names.
#[derive(Debug)]
pub struct TaskDraft {
    pub title: String,
    pub description: String,
    pub subject: String,
    pub priority: TaskPriority,
    pub due_at: String,
}

/// Checks a submitted form: a refused form is answered with a validation
/// error carrying the reason's message; an accepted one yields its trimmed
/// values.
pub fn prepare_new_task(new_task: &NewTask) -> (r: Result<TaskDraft, AppError>)
    ensures
        match validation_outcome(*new_task) {
            Err(e) => r matches Err(AppError::Validation(m)) && m@ == e.text(),
            Ok(p) => r matches Ok(d) && {
                &&& d.title@ == trimmed(new_task.title@)
                &&& d.description@ == trimmed(new_task.description@)
                &&& d.subject@ == trimmed(new_task.subject@)
                &&& d.priority == p
                &&& d.due_at@ == trimmed(new_task.due_at@)
            },
        },
{
    match validate_new_task(new_task) {
        Err(e) => Err(AppError::Validation(e.message().to_owned())),
        Ok(priority) => Ok(
            TaskDraft {
                title: trim_str(new_task.title.as_str()).to_owned(),
                description: trim_str(new_task.description.as_str()).to_owned(),
                subject: trim_str(new_task.subject.as_str()).to_owned(),
                priority,
                due_at: trim_str(new_task.due_at.as_str()).to_owned(),
            },
        ),
    }
}

/// "Task {id} was not found."
pub open spec fn not_found_text(id: int) -> Seq<char> {
    "Task "@ + int_decimal(id) + " was not found."@
}

/// The error for a task id that matches no task.
pub fn not_found(id: i64) -> (r: AppError)
    ensures
        r matches AppError::NotFound(m) && m@ == not_found_text(id as int),
{
    let mut m = "Task ".to_owned();
    let digits = i64_decimal(id);
    m.append(digits.as_str());
    m.append(" was not found.");
    AppError::NotFound(m)
}

/// A lookup by id: the task if there is one, else a not-found error.
pub fn task_or_not_found(found: Option<Task>, id: i64) -> (r: Result<Task, AppError>)
    ensures
        match found {
            Some(t) => r == Ok::<Task, AppError>(t),
            None => r matches Err(AppError::NotFound(m)) && m@ == not_found_text(id as int),
        },
{
    match found {
        Some(t) => Ok(t),
        None => Err(not_found(id)),
    }
}

/// What completing a task comes to, once the task has been looked up.
#[derive(Debug)]
pub enum CompletionStep {
    /// The task is already completed: it is answered as it is, and its
    /// completion time is not overwritten.
    AlreadyCompleted(Task),
    /// The task must be marked completed and read again.
    MarkCompleted,
}

/// Decides a completion request from the stored task (if any).
pub fn plan_completion(found: Option<Task>, id: i64) -> (r: Result<CompletionStep, AppError>)
    ensures
        match found {
            Some(t) => if t.status_completed() {
                r == Ok::<CompletionStep, AppError>(CompletionStep::AlreadyCompleted(t))
            } else {
                r == Ok::<CompletionStep, AppError>(CompletionStep::MarkCompleted)
            },
            None => r matches Err(AppError::NotFound(m)) && m@ == not_found_text(id as int),
        },
{
    match found {
        None => Err(not_found(id)),
        Some(t) => {
            if t.is_completed() {
                Ok(CompletionStep::AlreadyCompleted(t))
            } else {
                Ok(CompletionStep::MarkCompleted)
            }
        },
    }
}

/// After an insert, the stored task read back: missing means a database error.
pub fn reloaded_after_insert(found: Option<Task>) -> (r: Result<Task, AppError>)
    ensures
        match found {
            Some(t) => r == Ok::<Task, AppError>(t),
            None => r matches Err(AppError::Database(m)) && m@
                == "Task was saved but could not be reloaded."@,
        },
{
    match found {
        Some(t) => Ok(t),
        None => Err(AppError::Database("Task was saved but could not be reloaded.".to_owned())),
    }
}

/// After marking a task completed, the task read back: missing means a
/// database error.
pub fn reloaded_after_update(found: Option<Task>) -> (r: Result<Task, AppError>)
    ensures
        match found {
            Some(t) => r == Ok::<Task, AppError>(t),
            None => r matches Err(AppError::Database(m)) && m@ == "Task disappeared after update."@,
        },
{
    match found {
        Some(t) => Ok(t),
        None => Err(AppError::Database("Task disappeared after update.".to_owned())),
    }
}

/// The answer to a delete: nothing deleted means the task was not found.
pub fn deletion_outcome(rows_deleted: u64, id: i64) -> (r: Result<(), AppError>)
    ensures
        rows_deleted == 0 ==> (r matches Err(AppError::NotFound(m)) && m@ == not_found_text(
            id as int,
        )),
        rows_deleted != 0 ==> r == Ok::<(), AppError>(()),
{
    if rows_deleted == 0 {
        return Err(not_found(id));
    }
    Ok(())
}

/// Filtering by one predicate and then another is filtering by both.
proof fn lemma_filter_twice(s: Seq<Task>, p1: spec_fn(Task) -> bool, p2: spec_fn(Task) -> bool)
    ensures
        s.filter(p1).filter(p2) == s.filter(|t: Task| p1(t) && p2(t)),
    decreases s.len(),
{
    let both = |t: Task| p1(t) && p2(t);
    if s.len() > 0 {
        let init = s.drop_last();
        let x = s.last();
        lemma_filter_twice(init, p1, p2);
        assert(s =~= init.push(x));
        init.lemma_filter_push(x, p1);
        init.lemma_filter_push(x, both);
        init.filter(p1).lemma_filter_push(x, p2);
    } else {
        reveal(Seq::filter);
    }
}

/// Filtering by a predicate that every element meets keeps everything.
proof fn lemma_filter_keeps_all(s: Seq<Task>, p: spec_fn(Task) -> bool)
    requires
        forall|i: int| 0 <= i < s.len() ==> p(#[trigger] s[i]),
    ensures
        s.filter(p) == s,
    decreases s.len(),
{
    if s.len() > 0 {
        let init = s.drop_last();
        assert(s =~= init.push(s.last()));
        assert(p(s[s.len() - 1]));
        lemma_filter_keeps_all(init, p);
        init.lemma_filter_push(s.last(), p);
    } else {
        reveal(Seq::filter);
    }
}

/// The query's filter as a predicate.
pub open spec fn admitted_by(q: TaskQuery) -> spec_fn(Task) -> bool {
    |t: Task| query_admits(q, t)
}

/// An exact-match filter that sets no condition: missing, empty or "All".
pub open spec fn field_open(f: Option<String>) -> bool {
    f is None || f->0@.len() == 0 || f->0@ == "All"@
}

/// A query that sets no condition (no search term or a blank one, and
/// status and priority missing, empty or "All") returns every task, in order.
pub proof fn lemma_open_query_keeps_all(tasks: Seq<Task>, q: TaskQuery)
    requires
        q.search is None || is_blank(q.search->0@),
        field_open(q.status),
        field_open(q.priority),
    ensures
        tasks.filter(admitted_by(q)) == tasks,
{
    lemma_filter_keeps_all(tasks, admitted_by(q));
}

/// The search condition of a query alone.
pub open spec fn search_part(q: TaskQuery) -> TaskQuery {
    TaskQuery { search: q.search, status: None, priority: None }
}

/// The status condition of a query alone.
pub open spec fn status_part(q: TaskQuery) -> TaskQuery {
    TaskQuery { search: None, status: q.status, priority: None }
}

/// The priority condition of a query alone.
pub open spec fn priority_part(q: TaskQuery) -> TaskQuery {
    TaskQuery { search: None, status: None, priority: q.priority }
}

/// The conditions of a query combine: filtering by the search, then by
/// the status, then by the priority gives what the whole query gives.
pub proof fn lemma_query_conditions_combine(tasks: Seq<Task>, q: TaskQuery)
    ensures
        tasks.filter(admitted_by(search_part(q))).filter(admitted_by(status_part(q))).filter(
            admitted_by(priority_part(q)),
        ) == tasks.filter(admitted_by(q)),
{
    let a = admitted_by(search_part(q));
    let b = admitted_by(status_part(q));
    let c = admitted_by(priority_part(q));
    lemma_filter_twice(tasks, a, b);
    let ab = |t: Task| a(t) && b(t);
    lemma_filter_twice(tasks, ab, c);
    assert((|t: Task| ab(t) && c(t)) =~= admitted_by(q));
}

/// Filtering a filtered list by the same query changes nothing.
pub proof fn lemma_filter_idempotent(tasks: Seq<Task>, q: TaskQuery)
    ensures
        tasks.filter(admitted_by(q)).filter(admitted_by(q)) == tasks.filter(admitted_by(q)),
{
    let p = admitted_by(q);
    lemma_filter_twice(tasks, p, p);
    assert((|t: Task| p(t) && p(t)) =~= p);
}

/// Search ignores case: two queries whose terms have the same lowercase
/// form (and the same other conditions) select the same tasks.
pub proof fn lemma_search_ignores_case(tasks: Seq<Task>, q1: TaskQuery, q2: TaskQuery)
    requires
        q1.search is Some,
        q2.search is Some,
        lowercase(q1.search->0@) == lowercase(q2.search->0@),
        is_blank(q1.search->0@) == is_blank(q2.search->0@),
        q1.status == q2.status,
        q1.priority == q2.priority,
    ensures
        tasks.filter(admitted_by(q1)) == tasks.filter(admitted_by(q2)),
{
    assert(admitted_by(q1) =~= admitted_by(q2));
}

/// Every task of the history is completed, and every completed task is in
/// it exactly once.
pub proof fn lemma_history_is_the_completed_tasks(tasks: Seq<Task>, out: Seq<Task>, p: Seq<int>)
    requires
        newest_first_by(tasks.filter(completed_pred()), out, p),
    ensures
        forall|i: int| 0 <= i < out.len() ==> (#[trigger] out[i]).status_completed(),
        out.len() == tasks.filter(completed_pred()).len(),
        forall|j: int| 0 <= j < out.len() ==> #[trigger] p.contains(j),
{
    let src = tasks.filter(completed_pred());
    assert forall|i: int| 0 <= i < out.len() implies (#[trigger] out[i]).status_completed() by {
        tasks.lemma_filter_pred(completed_pred(), p[i]);
    }
    lemma_positions_cover(src, out, p);
    assert forall|j: int| 0 <= j < out.len() implies #[trigger] p.contains(j) by {
        assert(vstd::set_lib::set_int_range(0, out.len() as int).contains(j));
        assert(p.to_set().contains(j));
    }
}

/// The source positions of an arrangement are each position exactly once.
proof fn lemma_positions_cover(src: Seq<Task>, out: Seq<Task>, p: Seq<int>)
    requires
        newest_first_by(src, out, p),
    ensures
        p.no_duplicates(),
        p.to_set() =~= vstd::set_lib::set_int_range(0, src.len() as int),
{
    let n = out.len() as int;
    assert(p.no_duplicates()) by {
        assert forall|a: int, b: int| 0 <= a < p.len() && 0 <= b < p.len() && a != b implies p[a]
            != p[b] by {
            if a < b {
                assert(p[a] != p[b]);
            } else {
                assert(p[b] != p[a]);
            }
        }
    }
    p.unique_seq_to_set();
    vstd::set_lib::lemma_int_range(0, n);
    let range = vstd::set_lib::set_int_range(0, n);
    assert(p.to_set().subset_of(range)) by {
        assert forall|v: int| p.to_set().contains(v) implies range.contains(v) by {
            let i = choose|i: int| 0 <= i < p.len() && p[i] == v;
            assert(0 <= p[i] < n);
        }
    }
    vstd::set_lib::lemma_subset_equality(p.to_set(), range);
}

/// Position `a` of `src` goes ahead of position `b`: it was completed
/// later, or at the same time and came first.
pub open spec fn goes_ahead(src: Seq<Task>, a: int, b: int) -> bool {
    ||| completed_before(src[b], src[a])
    ||| !completed_before(src[a], src[b]) && !completed_before(src[b], src[a]) && a < b
}

proof fn lemma_goes_ahead_asymmetric(src: Seq<Task>, a: int, b: int)
    requires
        goes_ahead(src, a, b),
    ensures
        !goes_ahead(src, b, a),
{
    if completed_before(src[b], src[a]) {
        lemma_key_less_asymmetric(completion_key(src[b]), completion_key(src[a]));
    }
}

/// Two duplicate-free sequences with the same elements, both strictly in
/// the `goes_ahead` order, are the same sequence.
proof fn lemma_sorted_positions_unique(src: Seq<Task>, p: Seq<int>, q: Seq<int>)
    requires
        p.no_duplicates(),
        q.no_duplicates(),
        p.to_set() == q.to_set(),
        forall|i: int, j: int| 0 <= i < j < p.len() ==> goes_ahead(src, #[trigger] p[i], #[trigger] p[j]),
        forall|i: int, j: int| 0 <= i < j < q.len() ==> goes_ahead(src, #[trigger] q[i], #[trigger] q[j]),
    ensures
        p == q,
    decreases p.len(),
{
    p.unique_seq_to_set();
    q.unique_seq_to_set();
    if p.len() == 0 {
        assert(p =~= q);
    } else {
        assert(p.to_set().contains(p[0]));
        assert(q.to_set().contains(q[0]));
        let k = choose|k: int| 0 <= k < q.len() && q[k] == p[0];
        let m = choose|m: int| 0 <= m < p.len() && p[m] == q[0];
        if k != 0 && m != 0 {
            assert(goes_ahead(src, q[0], q[k]));
            assert(goes_ahead(src, p[0], p[m]));
            lemma_goes_ahead_asymmetric(src, p[0], q[0]);
        }
        if k == 0 {
            assert(p[0] == q[0]);
        } else {
            assert(m == 0);
            assert(p[0] == q[0]);
        }
        let p1 = p.drop_first();
        let q1 = q.drop_first();
        assert(p1.no_duplicates());
        assert(q1.no_duplicates());
        assert(p1.to_set() =~= p.to_set().remove(p[0])) by {
            assert forall|v: int| p1.to_set().contains(v) <==> p.to_set().remove(p[0]).contains(v) by {
                if p.to_set().remove(p[0]).contains(v) {
                    let i = choose|i: int| 0 <= i < p.len() && p[i] == v;
                    assert(p1[i - 1] == v);
                }
                if p1.to_set().contains(v) {
                    let i = choose|i: int| 0 <= i < p1.len() && p1[i] == v;
                    assert(p[i + 1] == v);
                }
            }
        }
        assert(q1.to_set() =~= q.to_set().remove(q[0])) by {
            assert forall|v: int| q1.to_set().contains(v) <==> q.to_set().remove(q[0]).contains(v) by {
                if q.to_set().remove(q[0]).contains(v) {
                    let i = choose|i: int| 0 <= i < q.len() && q[i] == v;
                    assert(q1[i - 1] == v);
                }
                if q1.to_set().contains(v) {
                    let i = choose|i: int| 0 <= i < q1.len() && q1[i] == v;
                    assert(q[i + 1] == v);
                }
            }
        }
        assert forall|i: int, j: int| 0 <= i < j < p1.len() implies goes_ahead(src, #[trigger] p1[i], #[trigger] p1[j]) by {
            assert(goes_ahead(src, p[i + 1], p[j + 1]));
        }
        assert forall|i: int, j: int| 0 <= i < j < q1.len() implies goes_ahead(src, #[trigger] q1[i], #[trigger] q1[j]) by {
            assert(goes_ahead(src, q[i + 1], q[j + 1]));
        }
        lemma_sorted_positions_unique(src, p1, q1);
        assert(p =~= q) by {
            assert forall|i: int| 0 <= i < p.len() implies p[i] == q[i] by {
                if i > 0 {
                    assert(p1[i - 1] == q1[i - 1]);
                }
            }
        }
    }
}

/// The newest-first order is fully determined: any two arrangements of the
/// same tasks that meet it are the same list.
pub proof fn lemma_newest_first_unique(src: Seq<Task>, out1: Seq<Task>, p1: Seq<int>, out2: Seq<Task>, p2: Seq<int>)
    requires
        newest_first_by(src, out1, p1),
        newest_first_by(src, out2, p2),
    ensures
        out1 == out2,
{
    lemma_positions_cover(src, out1, p1);
    lemma_positions_cover(src, out2, p2);
    assert forall|i: int, j: int| 0 <= i < j < p1.len() implies goes_ahead(src, #[trigger] p1[i], #[trigger] p1[j]) by {
        assert(!completed_before(out1[i], out1[j]));
        if !completed_before(out1[j], out1[i]) {
            assert(p1[i] < p1[j]);
        }
    }
    assert forall|i: int, j: int| 0 <= i < j < p2.len() implies goes_ahead(src, #[trigger] p2[i], #[trigger] p2[j]) by {
        assert(!completed_before(out2[i], out2[j]));
        if !completed_before(out2[j], out2[i]) {
            assert(p2[i] < p2[j]);
        }
    }
    lemma_sorted_positions_unique(src, p1, p2);
    assert(out1 =~= out2) by {
        assert forall|i: int| 0 <= i < out1.len() implies out1[i] == out2[i] by {
            assert(out1[i] == src[p1[i]]);
            assert(out2[i] == src[p2[i]]);
        }
    }
}

/// Pending and completed tasks never outnumber all tasks.
pub proof fn lemma_status_counts_bounded(tasks: Seq<Task>)
    ensures
        tasks.filter(status_is("Pending"@)).len() + tasks.filter(status_is("Completed"@)).len()
            <= tasks.len(),
    decreases tasks.len(),
{
    reveal_strlit("Pending");
    reveal_strlit("Completed");
    assert("Pending"@.len() != "Completed"@.len());
    if tasks.len() > 0 {
        let init = tasks.drop_last();
        let x = tasks.last();
        assert(tasks =~= init.push(x));
        lemma_status_counts_bounded(init);
        init.lemma_filter_push(x, status_is("Pending"@));
        init.lemma_filter_push(x, status_is("Completed"@));
    } else {
        reveal(Seq::filter);
    }
}

/// With a non-blank search term and no status or priority condition, a task
/// whose lowercased title or lowercased subject contains the lowercased term,
/// at any position, is kept.
pub proof fn lemma_search_keeps_every_match(tasks: Seq<Task>, q: TaskQuery, i: int)
    requires
        q.search is Some,
        !is_blank(q.search->0@),
        field_open(q.status),
        field_open(q.priority),
        0 <= i < tasks.len(),
        has_substring(lowercase(tasks[i].title@), lowercase(q.search->0@)) || has_substring(
            lowercase(tasks[i].subject@),
            lowercase(q.search->0@),
        ),
    ensures
        tasks.filter(admitted_by(q)).contains(tasks[i]),
{
    tasks.lemma_filter_contains(admitted_by(q), i);
}

/// With a non-blank search term, every task that is kept has the lowercased
/// term somewhere in its lowercased title or lowercased subject.
pub proof fn lemma_search_keeps_only_matches(tasks: Seq<Task>, q: TaskQuery, k: int)
    requires
        q.search is Some,
        !is_blank(q.search->0@),
        0 <= k < tasks.filter(admitted_by(q)).len(),
    ensures
        has_substring(lowercase(tasks.filter(admitted_by(q))[k].title@), lowercase(q.search->0@))
            || has_substring(
            lowercase(tasks.filter(admitted_by(q))[k].subject@),
            lowercase(q.search->0@),
        ),
{
    tasks.lemma_filter_pred(admitted_by(q), k);
}

/// A status filter that is present, non-empty and not "All" is exact:
/// every kept task has exactly that status text.
pub proof fn lemma_status_filter_exact(tasks: Seq<Task>, q: TaskQuery, k: int)
    requires
        q.status is Some,
        q.status->0@.len() > 0,
        q.status->0@ != "All"@,
        0 <= k < tasks.filter(admitted_by(q)).len(),
    ensures
        tasks.filter(admitted_by(q))[k].status@ == q.status->0@,
{
    tasks.lemma_filter_pred(admitted_by(q), k);
}

/// A priority filter that is present, non-empty and not "All" is exact:
/// every kept task has exactly that priority text.
pub proof fn lemma_priority_filter_exact(tasks: Seq<Task>, q: TaskQuery, k: int)
    requires
        q.priority is Some,
        q.priority->0@.len() > 0,
        q.priority->0@ != "All"@,
        0 <= k < tasks.filter(admitted_by(q)).len(),
    ensures
        tasks.filter(admitted_by(q))[k].priority@ == q.priority->0@,
{
    tasks.lemma_filter_pred(admitted_by(q), k);
}

/// With no search, a task whose status and priority texts equal the
/// filters' (or whose filters set no condition) is kept.
pub proof fn lemma_exact_filters_keep_matches(tasks: Seq<Task>, q: TaskQuery, i: int)
    requires
        q.search is None,
        0 <= i < tasks.len(),
        field_open(q.status) || tasks[i].status@ == q.status->0@,
        field_open(q.priority) || tasks[i].priority@ == q.priority->0@,
    ensures
        tasks.filter(admitted_by(q)).contains(tasks[i]),
{
    tasks.lemma_filter_contains(admitted_by(q), i);
}

/// The history is newest first by the whole completion text: of two tasks,
/// the later one never has a completion text greater (in string order)
/// than the earlier one; a task with a completion time never follows one
/// without; tasks with equal completion texts keep their input order; and
/// every task of the history has the status text "Completed".
pub proof fn lemma_history_order(tasks: Seq<Task>, out: Seq<Task>, p: Seq<int>)
    requires
        newest_first_by(tasks.filter(completed_pred()), out, p),
    ensures
        forall|i: int| 0 <= i < out.len() ==> (#[trigger] out[i]).status@ == "Completed"@,
        forall|i: int, j: int|
            0 <= i < j < out.len() && (#[trigger] out[j]).completed_at is Some ==> (
            #[trigger] out[i]).completed_at is Some && !bytes_less(
                encode_utf8(out[i].completed_at->0@),
                encode_utf8(out[j].completed_at->0@),
            ),
        forall|i: int, j: int|
            0 <= i < j < out.len() && ((#[trigger] out[i]).completed_at is None && (
            #[trigger] out[j]).completed_at is None || out[i].completed_at is Some
                && out[j].completed_at is Some && out[i].completed_at->0@
                == out[j].completed_at->0@) ==> p[i] < p[j],
{
    let src = tasks.filter(completed_pred());
    assert forall|i: int| 0 <= i < out.len() implies (#[trigger] out[i]).status@ == "Completed"@ by {
        tasks.lemma_filter_pred(completed_pred(), p[i]);
    }
    assert forall|i: int, j: int|
        0 <= i < j < out.len() && (#[trigger] out[j]).completed_at is Some implies (
        #[trigger] out[i]).completed_at is Some && !bytes_less(
            encode_utf8(out[i].completed_at->0@),
            encode_utf8(out[j].completed_at->0@),
        ) by {
        assert(!completed_before(out[i], out[j]));
    }
    assert forall|i: int, j: int|
        0 <= i < j < out.len() && ((#[trigger] out[i]).completed_at is None && (
        #[trigger] out[j]).completed_at is None || out[i].completed_at is Some
            && out[j].completed_at is Some && out[i].completed_at->0@
            == out[j].completed_at->0@) implies p[i] < p[j] by {
        if out[i].completed_at is Some {
            lemma_bytes_less_irreflexive(encode_utf8(out[i].completed_at->0@));
        }
        assert(!completed_before(out[j], out[i]));
    }
}

/// Counting one more task: the high-priority count grows by one exactly
/// when the task's priority text is "High", whatever its status; the
/// pending and completed counts grow by one exactly when its status text
/// is "Pending", respectively "Completed", whatever its priority; and no
/// tasks count nothing.
pub proof fn lemma_stats_counts_by_task(tasks: Seq<Task>, t: Task)
    ensures
        Seq::<Task>::empty().filter(priority_is("High"@)).len() == 0,
        Seq::<Task>::empty().filter(status_is("Pending"@)).len() == 0,
        Seq::<Task>::empty().filter(status_is("Completed"@)).len() == 0,
        tasks.push(t).filter(priority_is("High"@)).len() == tasks.filter(priority_is("High"@)).len()
            + if t.priority@ == "High"@ {
            1int
        } else {
            0int
        },
        tasks.push(t).filter(status_is("Pending"@)).len() == tasks.filter(status_is("Pending"@)).len()
            + if t.status@ == "Pending"@ {
            1int
        } else {
            0int
        },
        tasks.push(t).filter(status_is("Completed"@)).len() == tasks.filter(
            status_is("Completed"@),
        ).len() + if t.status@ == "Completed"@ {
            1int
        } else {
            0int
        },
{
    reveal(Seq::filter);
    tasks.lemma_filter_push(t, priority_is("High"@));
    tasks.lemma_filter_push(t, status_is("Pending"@));
    tasks.lemma_filter_push(t, status_is("Completed"@));
}

} // verus!
