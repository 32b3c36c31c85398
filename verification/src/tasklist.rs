//! The task collection: identifier lookup, the blocking resolver, the
//! filters, and the mutations that the store commands perform.

use vstd::prelude::*;

use crate::status::{spec_is_complete, Status};
use crate::strutil::{contains_seq, contains_substring, str_eq};
use crate::task::{decode_spec, encode_spec, Record, RecordView, Task, TaskView};

verus! {

pub type TaskList = Vec<Task>;

/// Index of the first task carrying `id`, or a negative number when no
/// task does. Lookup is first-match: duplicate identifiers are not
/// rejected, the earliest task wins.
pub open spec fn find_index(tasks: Seq<TaskView>, id: Seq<char>) -> int
    decreases tasks.len(),
{
    if tasks.len() == 0 {
        -1
    } else if tasks[0].id == Some(id) {
        0
    } else {
        let r = find_index(tasks.drop_first(), id);
        if r < 0 {
            -1
        } else {
            r + 1
        }
    }
}

/// Whether the task carrying `id` is complete. A dangling identifier —
/// one no task in the collection carries — counts as not complete: the
/// referenced work is assumed outstanding.
pub open spec fn complete_by_id_spec(tasks: Seq<TaskView>, id: Seq<char>) -> bool {
    let i = find_index(tasks, id);
    if i >= 0 {
        spec_is_complete(tasks[i].status)
    } else {
        false
    }
}

/// A task is blocked exactly when some direct prerequisite of it resolves
/// to a task that is not complete, or dangles. Only incompletion
/// propagates: a prerequisite whose task is complete never blocks, even
/// if that task is itself blocked.
pub open spec fn blocked_spec(tasks: Seq<TaskView>, t: TaskView) -> bool {
    exists|j: int|
        0 <= j < t.after.len() && !complete_by_id_spec(tasks, #[trigger] t.after[j])
}

/// The task with its blocked flag replaced.
pub open spec fn with_blocked(t: TaskView, b: bool) -> TaskView {
    TaskView { blocked: b, ..t }
}

/// The collection with every blocked flag recomputed from the completion
/// state, identifiers and prerequisites of the whole collection. Prior
/// blocked values are ignored.
pub open spec fn resolve_spec(tasks: Seq<TaskView>) -> Seq<TaskView> {
    Seq::new(tasks.len(), |i: int| with_blocked(tasks[i], blocked_spec(tasks, tasks[i])))
}

/// `find_index` points at the first match: a found index carries the
/// identifier and nothing before it does; a negative result means no task
/// carries it at all.
pub proof fn lemma_find_index(tasks: Seq<TaskView>, id: Seq<char>)
    ensures
        find_index(tasks, id) >= 0 ==> 0 <= find_index(tasks, id) < tasks.len() && tasks[find_index(
            tasks,
            id,
        )].id == Some(id),
        find_index(tasks, id) >= 0 ==> forall|k: int|
            0 <= k < find_index(tasks, id) ==> (#[trigger] tasks[k]).id != Some(id),
        find_index(tasks, id) < 0 ==> forall|k: int|
            0 <= k < tasks.len() ==> (#[trigger] tasks[k]).id != Some(id),
    decreases tasks.len(),
{
    if tasks.len() == 0 {
    } else if tasks[0].id == Some(id) {
    } else {
        lemma_find_index(tasks.drop_first(), id);
        assert(forall|k: int|
            1 <= k < tasks.len() ==> (#[trigger] tasks[k]) == tasks.drop_first()[k - 1]);
    }
}

/// Finding an identifier depends only on which identifier each task
/// carries, and completion lookup additionally on each task's status.
pub proof fn lemma_find_index_congruent(a: Seq<TaskView>, b: Seq<TaskView>, id: Seq<char>)
    requires
        a.len() == b.len(),
        forall|i: int| 0 <= i < a.len() ==> (#[trigger] a[i]).id == b[i].id,
    ensures
        find_index(a, id) == find_index(b, id),
    decreases a.len(),
{
    if a.len() == 0 {
    } else {
        assert(a[0].id == b[0].id);
        assert forall|i: int| 0 <= i < a.drop_first().len() implies (#[trigger] a.drop_first()[
        i]).id == b.drop_first()[i].id by {
            assert(a.drop_first()[i] == a[i + 1]);
            assert(b.drop_first()[i] == b[i + 1]);
        }
        lemma_find_index_congruent(a.drop_first(), b.drop_first(), id);
    }
}

/// Completion lookup agrees between two collections whose tasks carry the
/// same identifiers and statuses position by position.
pub proof fn lemma_complete_congruent(a: Seq<TaskView>, b: Seq<TaskView>, id: Seq<char>)
    requires
        a.len() == b.len(),
        forall|i: int|
            0 <= i < a.len() ==> (#[trigger] a[i]).id == b[i].id && a[i].status == b[i].status,
    ensures
        complete_by_id_spec(a, id) == complete_by_id_spec(b, id),
{
    lemma_find_index_congruent(a, b, id);
    lemma_find_index(a, id);
}

/// First task carrying `id`, or nothing when no task does.
pub fn find_task_by_id<'a>(id: &'a str, all_tasks: &'a TaskList) -> (r: Option<&'a Task>)
    ensures
        (match r {
            Some(t) => find_index(all_tasks.deep_view(), id@) >= 0 && t@ == all_tasks.deep_view()[
                find_index(all_tasks.deep_view(), id@)],
            None => find_index(all_tasks.deep_view(), id@) < 0,
        }),
{
    let ghost views = all_tasks.deep_view();
    let n = all_tasks.len();
    let mut i: usize = 0;
    while i < n
        invariant
            i <= n,
            n == all_tasks.len(),
            views == all_tasks.deep_view(),
            views.len() == n,
            forall|k: int| 0 <= k < i ==> (#[trigger] views[k]).id != Some(id@),
        decreases n - i,
    {
        let found = match &all_tasks[i].id {
            Some(x) => str_eq(x.as_str(), id),
            None => false,
        };
        if found {
            proof {
                lemma_find_index(views, id@);
                let fi = find_index(views, id@);
                if fi < 0 {
                    assert(views[i as int].id != Some(id@));
                } else if fi < i {
                    assert(views[fi].id != Some(id@));
                } else if fi > i {
                    assert(views[i as int].id != Some(id@));
                }
                assert(fi == i);
            }
            return Some(&all_tasks[i]);
        }
        i += 1;
    }
    proof {
        lemma_find_index(views, id@);
        if find_index(views, id@) >= 0 {
            assert(views[find_index(views, id@)].id != Some(id@));
        }
    }
    None
}

/// Whether the task carrying `id` is complete; a dangling identifier
/// counts as not complete.
pub fn is_task_complete_by_id(id: &str, all_tasks: &TaskList) -> (r: bool)
    ensures
        r == complete_by_id_spec(all_tasks.deep_view(), id@),
{
    let res = find_task_by_id(id, all_tasks);
    match res {
        Some(x) => x.is_complete(),
        _ => false,
    }
}

/// Membership of a text among the collected blocker identifiers.
fn vec_contains_str(v: &Vec<String>, s: &str) -> (r: bool)
    ensures
        r == v.deep_view().contains(s@),
{
    let n = v.len();
    let mut i: usize = 0;
    while i < n
        invariant
            i <= n,
            n == v.len(),
            forall|k: int| 0 <= k < i ==> v.deep_view()[k] != s@,
        decreases n - i,
    {
        if str_eq(v[i].as_str(), s) {
            proof {
                assert(v.deep_view()[i as int] == s@);
            }
            return true;
        }
        i += 1;
    }
    proof {
        if v.deep_view().contains(s@) {
            let w = choose|w: int| 0 <= w < v.deep_view().len() && v.deep_view()[w] == s@;
            assert(v.deep_view()[w] != s@);
        }
    }
    false
}

/// Pushing onto the blocker list keeps every present identifier and adds
/// the new one.
proof fn lemma_push_contains(s: Seq<Seq<char>>, x: Seq<char>)
    ensures
        forall|y: Seq<char>| s.contains(y) ==> #[trigger] s.push(x).contains(y),
        s.push(x).contains(x),
{
    assert forall|y: Seq<char>| s.contains(y) implies #[trigger] s.push(x).contains(y) by {
        let w = choose|w: int| 0 <= w < s.len() && s[w] == y;
        assert(s.push(x)[w] == y);
    }
    assert(s.push(x)[s.len() as int] == x);
}

/// The blocking resolver. Two passes, as the store works: first every
/// prerequisite identifier whose task is not complete (or missing) is
/// collected as a blocker, then every task is marked blocked exactly when
/// one of its prerequisites is a collected blocker. The result is
/// `resolve_spec` of the input: a pure function of the collection's
/// completion states, identifiers and prerequisite lists.
pub fn mark_blocked_tasks(all_tasks: TaskList) -> (r: TaskList)
    ensures
        r.deep_view() == resolve_spec(all_tasks.deep_view()),
{
    let ghost views = all_tasks.deep_view();
    let n = all_tasks.len();

    // Pass 1: collect the identifiers that currently block.
    let mut blockers: Vec<String> = Vec::new();
    let mut i: usize = 0;
    proof {
        assert(blockers.deep_view() =~~= Seq::<Seq<char>>::empty());
    }
    while i < n
        invariant
            i <= n,
            n == all_tasks.len(),
            views == all_tasks.deep_view(),
            views.len() == n,
            forall|k: int|
                0 <= k < blockers.deep_view().len() ==> !complete_by_id_spec(
                    views,
                    #[trigger] blockers.deep_view()[k],
                ),
            forall|a: int, j: int|
                0 <= a < i && 0 <= j < views[a].after.len() && !complete_by_id_spec(
                    views,
                    #[trigger] views[a].after[j],
                ) ==> blockers.deep_view().contains(views[a].after[j]),
        decreases n - i,
    {
        let m = all_tasks[i].after.len();
        let mut j: usize = 0;
        while j < m
            invariant
                j <= m,
                i < n,
                n == all_tasks.len(),
                views == all_tasks.deep_view(),
                views.len() == n,
                m == views[i as int].after.len(),
                forall|k: int|
                    0 <= k < blockers.deep_view().len() ==> !complete_by_id_spec(
                        views,
                        #[trigger] blockers.deep_view()[k],
                    ),
                forall|a: int, j2: int|
                    0 <= a < i && 0 <= j2 < views[a].after.len() && !complete_by_id_spec(
                        views,
                        #[trigger] views[a].after[j2],
                    ) ==> blockers.deep_view().contains(views[a].after[j2]),
                forall|j2: int|
                    0 <= j2 < j && !complete_by_id_spec(
                        views,
                        #[trigger] views[i as int].after[j2],
                    ) ==> blockers.deep_view().contains(views[i as int].after[j2]),
            decreases m - j,
        {
            let complete = is_task_complete_by_id(all_tasks[i].after[j].as_str(), &all_tasks);
            if !complete {
                let ghost old_bl = blockers.deep_view();
                blockers.push(all_tasks[i].after[j].clone());
                proof {
                    assert(blockers.deep_view() =~~= old_bl.push(views[i as int].after[j as int]));
                    lemma_push_contains(old_bl, views[i as int].after[j as int]);
                }
            }
            j += 1;
        }
        i += 1;
    }
    let ghost bl = blockers.deep_view();

    // Pass 2: mark each task blocked exactly when one of its
    // prerequisites was collected.
    let mut rest = all_tasks;
    let mut result: TaskList = Vec::new();
    let mut idx: usize = 0;
    proof {
        assert(result.deep_view() =~~= resolve_spec(views).take(0));
        assert(rest.deep_view() =~~= views.skip(0));
    }
    while idx < n
        invariant
            idx <= n,
            views.len() == n,
            rest.len() == n - idx,
            rest.deep_view() == views.skip(idx as int),
            result.len() == idx,
            result.deep_view() == resolve_spec(views).take(idx as int),
            bl == blockers.deep_view(),
            forall|k: int| 0 <= k < bl.len() ==> !complete_by_id_spec(views, #[trigger] bl[k]),
            forall|a: int, j2: int|
                0 <= a < n && 0 <= j2 < views[a].after.len() && !complete_by_id_spec(
                    views,
                    #[trigger] views[a].after[j2],
                ) ==> bl.contains(views[a].after[j2]),
        decreases n - idx,
    {
        let ghost old_rest = rest@;
        let ghost old_rdv = rest.deep_view();
        let mut t = rest.remove(0);
        proof {
            assert(old_rdv[0] == old_rest[0].deep_view());
            assert(t@ == views[idx as int]);
            assert forall|q: int|
                0 <= q < rest@.len() implies rest.deep_view()[q] == views.skip(
                idx as int + 1,
            )[q] by {
                assert(rest@[q] == old_rest[q + 1]);
                assert(old_rdv[q + 1] == old_rest[q + 1].deep_view());
                assert(views.skip(idx as int)[q + 1] == views[idx + 1 + q]);
            }
            assert(rest.deep_view() =~~= views.skip(idx as int + 1));
        }
        let m = t.after.len();
        let mut blocked = false;
        let mut j: usize = 0;
        while j < m
            invariant
                j <= m,
                m == t@.after.len(),
                t@ == views[idx as int],
                idx < n,
                views.len() == n,
                bl == blockers.deep_view(),
                blocked ==> (exists|k: int| 0 <= k < m && bl.contains(#[trigger] t@.after[k])),
                !blocked ==> (forall|k: int|
                    0 <= k < j ==> !bl.contains(#[trigger] t@.after[k])),
            decreases m - j,
        {
            let found = vec_contains_str(&blockers, t.after[j].as_str());
            if found {
                proof {
                    assert(bl.contains(t@.after[j as int]));
                }
                blocked = true;
            }
            j += 1;
        }
        proof {
            if blocked {
                let k = choose|k: int| 0 <= k < t@.after.len() && bl.contains(t@.after[k]);
                let w = choose|w: int| 0 <= w < bl.len() && bl[w] == t@.after[k];
                assert(!complete_by_id_spec(views, t@.after[k]));
                assert(blocked_spec(views, views[idx as int]));
            } else {
                if blocked_spec(views, views[idx as int]) {
                    let j2 = choose|j2: int|
                        0 <= j2 < views[idx as int].after.len() && !complete_by_id_spec(
                            views,
                            views[idx as int].after[j2],
                        );
                    assert(bl.contains(views[idx as int].after[j2]));
                }
            }
            assert(blocked == blocked_spec(views, views[idx as int]));
        }
        let ghost old_dv = result.deep_view();
        t.is_blocked = blocked;
        result.push(t);
        proof {
            assert(t@ =~~= with_blocked(views[idx as int], blocked_spec(
                views,
                views[idx as int],
            )));
            assert(result.deep_view() =~~= old_dv.push(t@));
            assert(result.deep_view() =~~= resolve_spec(views).take(idx as int + 1));
        }
        idx += 1;
    }
    proof {
        assert(resolve_spec(views).take(n as int) =~~= resolve_spec(views));
    }
    result
}

/// Pops the front element, relating the views of the old and new vectors.
fn take_first<T: DeepView>(rest: &mut Vec<T>) -> (t: T)
    requires
        old(rest).len() > 0,
    ensures
        t == old(rest)@[0],
        t.deep_view() == old(rest).deep_view()[0],
        final(rest)@ == old(rest)@.drop_first(),
        final(rest).deep_view() == old(rest).deep_view().drop_first(),
{
    let ghost old_seq = rest@;
    let ghost old_dv = rest.deep_view();
    let t = rest.remove(0);
    proof {
        assert(rest@ =~= old_seq.drop_first());
        assert(old_dv[0] == old_seq[0].deep_view());
        assert forall|q: int|
            0 <= q < rest@.len() implies rest.deep_view()[q] == old_dv.drop_first()[q] by {
            assert(rest@[q] == old_seq[q + 1]);
            assert(old_dv[q + 1] == old_seq[q + 1].deep_view());
        }
        assert(rest.deep_view() =~~= old_dv.drop_first());
    }
    t
}

/// One step of `Seq::filter` along a prefix: taking one more element
/// keeps it exactly when the predicate holds of it.
proof fn lemma_filter_take_step(s: Seq<TaskView>, p: spec_fn(TaskView) -> bool, i: int)
    requires
        0 <= i < s.len(),
    ensures
        s.take(i + 1).filter(p) == (if p(s[i]) {
            s.take(i).filter(p).push(s[i])
        } else {
            s.take(i).filter(p)
        }),
{
    reveal(Seq::filter);
    assert(s.take(i + 1).drop_last() =~= s.take(i));
    assert(s.take(i + 1).last() == s[i]);
}

/// `Seq::filter` of the empty sequence is empty.
proof fn lemma_filter_empty(p: spec_fn(TaskView) -> bool)
    ensures
        Seq::<TaskView>::empty().filter(p) == Seq::<TaskView>::empty(),
{
    reveal(Seq::filter);
}

/// Retains the tasks whose completion equals `completed`, then re-runs
/// the resolver on the retained tasks alone: blocking is recomputed
/// relative to only the visible tasks, so a task blocked in the full view
/// may be free in the filtered one, and vice versa.
pub fn filter_by_completion(all_tasks: TaskList, completed: bool) -> (r: TaskList)
    ensures
        r.deep_view() == resolve_spec(
            all_tasks.deep_view().filter(
                |t: TaskView| spec_is_complete(t.status) == completed,
            ),
        ),
{
    let ghost views = all_tasks.deep_view();
    let ghost p = |t: TaskView| spec_is_complete(t.status) == completed;
    let mut rest = all_tasks;
    let mut kept: TaskList = Vec::new();
    let n = rest.len();
    let mut i: usize = 0;
    proof {
        lemma_filter_empty(p);
        assert(views.take(0) =~= Seq::<TaskView>::empty());
        assert(kept.deep_view() =~~= views.take(0).filter(p));
        assert(rest.deep_view() =~~= views.skip(0));
    }
    while i < n
        invariant
            i <= n,
            views.len() == n,
            rest.len() == n - i,
            rest.deep_view() == views.skip(i as int),
            kept.deep_view() == views.take(i as int).filter(p),
            p == (|t: TaskView| spec_is_complete(t.status) == completed),
        decreases n - i,
    {
        let t = take_first(&mut rest);
        proof {
            assert(views.skip(i as int)[0] == views[i as int]);
            assert(views.skip(i as int).drop_first() =~= views.skip(i as int + 1));
            lemma_filter_take_step(views, p, i as int);
        }
        let keep = t.is_complete() == completed;
        let ghost old_kdv = kept.deep_view();
        if keep {
            kept.push(t);
            proof {
                assert(kept.deep_view() =~~= old_kdv.push(views[i as int]));
            }
        }
        i += 1;
    }
    proof {
        assert(views.take(n as int) =~= views);
    }
    mark_blocked_tasks(kept)
}

/// Retains the tasks that can be worked on next: neither blocked nor
/// complete, judged against the already-resolved collection. The
/// resolver is not re-run afterwards.
pub fn filter_next_actionable(all_tasks: TaskList) -> (r: TaskList)
    ensures
        r.deep_view() == all_tasks.deep_view().filter(
            |t: TaskView| !t.blocked && !spec_is_complete(t.status),
        ),
{
    let ghost views = all_tasks.deep_view();
    let ghost p = |t: TaskView| !t.blocked && !spec_is_complete(t.status);
    let mut rest = all_tasks;
    let mut kept: TaskList = Vec::new();
    let n = rest.len();
    let mut i: usize = 0;
    proof {
        lemma_filter_empty(p);
        assert(views.take(0) =~= Seq::<TaskView>::empty());
        assert(kept.deep_view() =~~= views.take(0).filter(p));
        assert(rest.deep_view() =~~= views.skip(0));
    }
    while i < n
        invariant
            i <= n,
            views.len() == n,
            rest.len() == n - i,
            rest.deep_view() == views.skip(i as int),
            kept.deep_view() == views.take(i as int).filter(p),
            p == (|t: TaskView| !t.blocked && !spec_is_complete(t.status)),
        decreases n - i,
    {
        let t = take_first(&mut rest);
        proof {
            assert(views.skip(i as int)[0] == views[i as int]);
            assert(views.skip(i as int).drop_first() =~= views.skip(i as int + 1));
            lemma_filter_take_step(views, p, i as int);
        }
        let keep = !t.is_blocked && !t.is_complete();
        let ghost old_kdv = kept.deep_view();
        if keep {
            kept.push(t);
            proof {
                assert(kept.deep_view() =~~= old_kdv.push(views[i as int]));
            }
        }
        i += 1;
    }
    proof {
        assert(views.take(n as int) =~= views);
    }
    kept
}

/// Retains the tasks whose subject contains the keyword, literally and
/// case-sensitively. The resolver is not re-run.
pub fn filter_by_keyword(all_tasks: TaskList, keyword: &str) -> (r: TaskList)
    ensures
        r.deep_view() == all_tasks.deep_view().filter(
            |t: TaskView| contains_seq(t.subject, keyword@),
        ),
{
    let ghost views = all_tasks.deep_view();
    let ghost p = |t: TaskView| contains_seq(t.subject, keyword@);
    let mut rest = all_tasks;
    let mut kept: TaskList = Vec::new();
    let n = rest.len();
    let mut i: usize = 0;
    proof {
        lemma_filter_empty(p);
        assert(views.take(0) =~= Seq::<TaskView>::empty());
        assert(kept.deep_view() =~~= views.take(0).filter(p));
        assert(rest.deep_view() =~~= views.skip(0));
    }
    while i < n
        invariant
            i <= n,
            views.len() == n,
            rest.len() == n - i,
            rest.deep_view() == views.skip(i as int),
            kept.deep_view() == views.take(i as int).filter(p),
            p == (|t: TaskView| contains_seq(t.subject, keyword@)),
        decreases n - i,
    {
        let t = take_first(&mut rest);
        proof {
            assert(views.skip(i as int)[0] == views[i as int]);
            assert(views.skip(i as int).drop_first() =~= views.skip(i as int + 1));
            lemma_filter_take_step(views, p, i as int);
        }
        let keep = contains_substring(t.subject.as_str(), keyword);
        let ghost old_kdv = kept.deep_view();
        if keep {
            kept.push(t);
            proof {
                assert(kept.deep_view() =~~= old_kdv.push(views[i as int]));
            }
        }
        i += 1;
    }
    proof {
        assert(views.take(n as int) =~= views);
    }
    kept
}

/// The collection with every task carrying `id` marked complete; other
/// tasks are untouched. An identifier no task carries changes nothing.
pub open spec fn complete_matching_spec(tasks: Seq<TaskView>, id: Seq<char>) -> Seq<TaskView> {
    tasks.map_values(
        |t: TaskView|
            (if t.id == Some(id) {
                TaskView { status: Status::Complete, ..t }
            } else {
                t
            }),
    )
}

/// The collection with every task marked not complete.
pub open spec fn clear_all_spec(tasks: Seq<TaskView>) -> Seq<TaskView> {
    tasks.map_values(|t: TaskView| TaskView { status: Status::Todo, ..t })
}

/// Marks the tasks carrying `id` complete — a silent no-op when none
/// does — and then re-runs the resolver over the whole collection.
pub fn complete_by_id(all_tasks: TaskList, id: &str) -> (r: TaskList)
    ensures
        r.deep_view() == resolve_spec(complete_matching_spec(all_tasks.deep_view(), id@)),
{
    let ghost views = all_tasks.deep_view();
    let mut rest = all_tasks;
    let mut updated: TaskList = Vec::new();
    let n = rest.len();
    let mut i: usize = 0;
    proof {
        assert(views.take(0) =~= Seq::<TaskView>::empty());
        assert(updated.deep_view() =~~= complete_matching_spec(views.take(0), id@));
        assert(rest.deep_view() =~~= views.skip(0));
    }
    while i < n
        invariant
            i <= n,
            views.len() == n,
            rest.len() == n - i,
            rest.deep_view() == views.skip(i as int),
            updated.deep_view() == complete_matching_spec(views.take(i as int), id@),
        decreases n - i,
    {
        let mut t = take_first(&mut rest);
        proof {
            assert(views.skip(i as int)[0] == views[i as int]);
            assert(views.skip(i as int).drop_first() =~= views.skip(i as int + 1));
        }
        let matched = t.is_id(id.to_owned());
        if matched {
            t.status = Status::Complete;
        }
        let ghost old_dv = updated.deep_view();
        updated.push(t);
        proof {
            assert(updated.deep_view() =~~= old_dv.push(t@));
            assert(updated.deep_view() =~~= complete_matching_spec(views.take(i as int + 1), id@));
        }
        i += 1;
    }
    proof {
        assert(views.take(n as int) =~= views);
    }
    mark_blocked_tasks(updated)
}

/// Marks every task not complete and re-runs the resolver.
pub fn clear_all(all_tasks: TaskList) -> (r: TaskList)
    ensures
        r.deep_view() == resolve_spec(clear_all_spec(all_tasks.deep_view())),
{
    let ghost views = all_tasks.deep_view();
    let mut rest = all_tasks;
    let mut updated: TaskList = Vec::new();
    let n = rest.len();
    let mut i: usize = 0;
    proof {
        assert(views.take(0) =~= Seq::<TaskView>::empty());
        assert(updated.deep_view() =~~= clear_all_spec(views.take(0)));
        assert(rest.deep_view() =~~= views.skip(0));
    }
    while i < n
        invariant
            i <= n,
            views.len() == n,
            rest.len() == n - i,
            rest.deep_view() == views.skip(i as int),
            updated.deep_view() == clear_all_spec(views.take(i as int)),
        decreases n - i,
    {
        let mut t = take_first(&mut rest);
        proof {
            assert(views.skip(i as int)[0] == views[i as int]);
            assert(views.skip(i as int).drop_first() =~= views.skip(i as int + 1));
        }
        t.status = Status::Todo;
        let ghost old_dv = updated.deep_view();
        updated.push(t);
        proof {
            assert(updated.deep_view() =~~= old_dv.push(t@));
            assert(updated.deep_view() =~~= clear_all_spec(views.take(i as int + 1)));
        }
        i += 1;
    }
    proof {
        assert(views.take(n as int) =~= views);
    }
    mark_blocked_tasks(updated)
}

/// Decodes every loaded record into a task, in order. Blocked flags start
/// out false; the caller runs the resolver over the result.
pub fn load_todo_into_tasks(records: Vec<Record>) -> (r: TaskList)
    ensures
        r.deep_view() == records.deep_view().map_values(|rv: RecordView| decode_spec(rv)),
{
    let ghost views = records.deep_view();
    let mut rest = records;
    let mut tasks: TaskList = Vec::new();
    let n = rest.len();
    let mut i: usize = 0;
    proof {
        assert(views.take(0) =~= Seq::<RecordView>::empty());
        assert(tasks.deep_view() =~~= views.take(0).map_values(
            |rv: RecordView| decode_spec(rv),
        ));
        assert(rest.deep_view() =~~= views.skip(0));
    }
    while i < n
        invariant
            i <= n,
            views.len() == n,
            rest.len() == n - i,
            rest.deep_view() == views.skip(i as int),
            tasks.deep_view() == views.take(i as int).map_values(
                |rv: RecordView| decode_spec(rv),
            ),
        decreases n - i,
    {
        let rec = take_first(&mut rest);
        proof {
            assert(views.skip(i as int)[0] == views[i as int]);
            assert(views.skip(i as int).drop_first() =~= views.skip(i as int + 1));
        }
        let t = Task::from_record(rec);
        let ghost old_dv = tasks.deep_view();
        tasks.push(t);
        proof {
            assert(tasks.deep_view() =~~= old_dv.push(t@));
            assert(tasks.deep_view() =~~= views.take(i as int + 1).map_values(
                |rv: RecordView| decode_spec(rv),
            ));
        }
        i += 1;
    }
    proof {
        assert(views.take(n as int) =~= views);
    }
    tasks
}

/// Encodes every task back into a store record, in order.
pub fn todo_vec_from_task_vec(all_tasks: TaskList) -> (r: Vec<Record>)
    ensures
        r.deep_view() == all_tasks.deep_view().map_values(|tv: TaskView| encode_spec(tv)),
{
    let ghost views = all_tasks.deep_view();
    let mut res: Vec<Record> = Vec::new();
    let n = all_tasks.len();
    let mut i: usize = 0;
    proof {
        assert(views.take(0) =~= Seq::<TaskView>::empty());
        assert(res.deep_view() =~~= views.take(0).map_values(|tv: TaskView| encode_spec(tv)));
    }
    while i < n
        invariant
            i <= n,
            views.len() == n,
            n == all_tasks.len(),
            views == all_tasks.deep_view(),
            res.deep_view() == views.take(i as int).map_values(|tv: TaskView| encode_spec(tv)),
        decreases n - i,
    {
        let rec = all_tasks[i].to_todo();
        let ghost old_dv = res.deep_view();
        res.push(rec);
        proof {
            assert(views[i as int] == all_tasks@[i as int]@);
            assert(res.deep_view() =~~= old_dv.push(rec@));
            assert(res.deep_view() =~~= views.take(i as int + 1).map_values(
                |tv: TaskView| encode_spec(tv),
            ));
        }
        i += 1;
    }
    proof {
        assert(views.take(n as int) =~= views);
    }
    res
}

/// Resolver idempotence: resolving an already-resolved collection changes
/// nothing, because the blocked flags the resolver writes are computed
/// only from fields it never changes.
pub proof fn lemma_resolver_idempotent(tasks: Seq<TaskView>)
    ensures
        resolve_spec(resolve_spec(tasks)) == resolve_spec(tasks),
{
    let r = resolve_spec(tasks);
    assert forall|i: int| 0 <= i < r.len() implies resolve_spec(r)[i] == r[i] by {
        assert(r[i] == with_blocked(tasks[i], blocked_spec(tasks, tasks[i])));
        assert forall|id: Seq<char>|
            complete_by_id_spec(r, id) == complete_by_id_spec(tasks, id) by {
            assert forall|q: int|
                0 <= q < r.len() implies (#[trigger] r[q]).id == tasks[q].id && r[q].status
                == tasks[q].status by {
                assert(r[q] == with_blocked(tasks[q], blocked_spec(tasks, tasks[q])));
            }
            lemma_complete_congruent(r, tasks, id);
        }
        assert(r[i].after == tasks[i].after);
        if blocked_spec(r, r[i]) {
            let j = choose|j: int|
                0 <= j < r[i].after.len() && !complete_by_id_spec(r, r[i].after[j]);
            assert(!complete_by_id_spec(tasks, tasks[i].after[j]));
        }
        if blocked_spec(tasks, tasks[i]) {
            let j = choose|j: int|
                0 <= j < tasks[i].after.len() && !complete_by_id_spec(tasks, tasks[i].after[j]);
            assert(!complete_by_id_spec(r, r[i].after[j]));
        }
        assert(resolve_spec(r)[i] =~~= r[i]);
    }
    assert(resolve_spec(r) =~= r);
}

/// Dangling-reference policy: a task whose sole prerequisite identifier
/// no task in the collection carries is always blocked, since the missing
/// work counts as outstanding.
pub proof fn lemma_dangling_blocks(tasks: Seq<TaskView>, t: TaskView)
    requires
        t.after.len() == 1,
        forall|k: int| 0 <= k < tasks.len() ==> (#[trigger] tasks[k]).id != Some(t.after[0]),
    ensures
        blocked_spec(tasks, t),
{
    lemma_find_index(tasks, t.after[0]);
    if find_index(tasks, t.after[0]) >= 0 {
        assert(tasks[find_index(tasks, t.after[0])].id != Some(t.after[0]));
    }
    assert(!complete_by_id_spec(tasks, t.after[0]));
    assert(blocked_spec(tasks, t));
}

/// Self-reference: a task that names its own identifier as its sole
/// prerequisite, is the first carrier of that identifier, and is not
/// complete, blocks itself — the lookup simply finds the task itself.
pub proof fn lemma_self_reference_blocks(tasks: Seq<TaskView>, i: int)
    requires
        0 <= i < tasks.len(),
        tasks[i].after.len() == 1,
        tasks[i].id == Some(tasks[i].after[0]),
        !spec_is_complete(tasks[i].status),
        forall|k: int| 0 <= k < i ==> (#[trigger] tasks[k]).id != Some(tasks[i].after[0]),
    ensures
        blocked_spec(tasks, tasks[i]),
{
    let p = tasks[i].after[0];
    lemma_find_index(tasks, p);
    let fi = find_index(tasks, p);
    if fi < 0 {
        assert(tasks[i].id != Some(p));
    } else if fi < i {
        assert(tasks[fi].id != Some(p));
    } else if fi > i {
        assert(tasks[i].id != Some(p));
    }
    assert(fi == i);
    assert(!complete_by_id_spec(tasks, p));
    assert(blocked_spec(tasks, tasks[i]));
}

} // verus!
