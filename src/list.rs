use vstd::prelude::*;

use crate::error::AnansiError;
use crate::query::{filter_tasks, fold_query, select, Filter};
use crate::sort_by::{is_stable_sort, sort_tasks, SortBy};
use crate::task::{parse_line, task_views, Task, TaskView};
use crate::text::{lower_of, upper_of};

verus! {

/// What a list holds, as mathematical values.
pub struct ListView {
    /// Where the list is kept.
    pub path: Seq<char>,
    /// All tasks, ascending by identity.
    pub tasks: Seq<TaskView>,
    /// The identities of the open tasks, in the order they came in.
    pub open: Seq<usize>,
    /// The identities of the done tasks, in the order they came in.
    pub done: Seq<usize>,
}

pub open spec fn ids_ascending(ts: Seq<TaskView>) -> bool {
    forall|i: int, j: int| 0 <= i < j < ts.len() ==> ts[i].id < ts[j].id
}

/// Whether some task of `ts` has identity `id`.
pub open spec fn has_id(ts: Seq<TaskView>, id: usize) -> bool {
    exists|t: TaskView| ts.contains(t) && t.id == id
}

/// Whether some task of `ts` has identity `id` and is done (or open).
pub open spec fn has_id_in_state(ts: Seq<TaskView>, id: usize, done: bool) -> bool {
    exists|t: TaskView| ts.contains(t) && t.id == id && t.done == done
}

impl ListView {
    /// Identities are unique and ascending; each task's identity stands in
    /// the open or the done bucket as the task is open or done, once.
    pub open spec fn wf(self) -> bool {
        &&& ids_ascending(self.tasks)
        &&& self.open.no_duplicates()
        &&& self.done.no_duplicates()
        &&& forall|id: usize| #[trigger] self.open.contains(id) <==> has_id_in_state(self.tasks, id, false)
        &&& forall|id: usize| #[trigger] self.done.contains(id) <==> has_id_in_state(self.tasks, id, true)
    }
}

/// The identities of the open tasks of `ts`, in order.
pub open spec fn open_ids_of(ts: Seq<TaskView>) -> Seq<usize>
    decreases ts.len(),
{
    if ts.len() == 0 {
        Seq::empty()
    } else if !ts.last().done {
        open_ids_of(ts.drop_last()).push(ts.last().id)
    } else {
        open_ids_of(ts.drop_last())
    }
}

/// The identities of the done tasks of `ts`, in order.
pub open spec fn done_ids_of(ts: Seq<TaskView>) -> Seq<usize>
    decreases ts.len(),
{
    if ts.len() == 0 {
        Seq::empty()
    } else if ts.last().done {
        done_ids_of(ts.drop_last()).push(ts.last().id)
    } else {
        done_ids_of(ts.drop_last())
    }
}

/// The list of tasks `ts`, bucketed in their order.
pub open spec fn list_of(path: Seq<char>, ts: Seq<TaskView>) -> ListView {
    ListView { path, tasks: ts, open: open_ids_of(ts), done: done_ids_of(ts) }
}

/// A todo list: tasks by identity, and the identities of the open and of the
/// done tasks in the order they came in.
pub struct List {
    file_path: String,
    tasks: Vec<Task>,
    open_tasks: Vec<usize>,
    done_tasks: Vec<usize>,
}

impl View for List {
    type V = ListView;

    closed spec fn view(&self) -> ListView {
        ListView {
            path: self.file_path@,
            tasks: task_views(self.tasks@),
            open: self.open_tasks@,
            done: self.done_tasks@,
        }
    }
}

/// What a filter keeps of a sequence it keeps, and that it keeps no twice.
proof fn lemma_filter_contains<A>(s: Seq<A>, p: spec_fn(A) -> bool)
    ensures
        forall|x: A| #[trigger] s.filter(p).contains(x) <==> s.contains(x) && p(x),
        s.no_duplicates() ==> s.filter(p).no_duplicates(),
    decreases s.len(),
{
    broadcast use Seq::lemma_filter_contains_rev, Seq::lemma_filter_pred, Seq::lemma_filter_contains;

    assert forall|x: A| #[trigger] s.filter(p).contains(x) <==> s.contains(x) && p(x) by {
        if s.filter(p).contains(x) {
            let i = choose|i: int| 0 <= i < s.filter(p).len() && s.filter(p)[i] == x;
            assert(p(s.filter(p)[i]));
        }
        if s.contains(x) && p(x) {
            let i = choose|i: int| 0 <= i < s.len() && s[i] == x;
            assert(s.filter(p).contains(s[i]));
        }
    }
    reveal(Seq::filter);
    if s.len() > 0 && s.no_duplicates() {
        let d = s.drop_last();
        let x = s.last();
        assert(d.no_duplicates()) by {
            assert forall|i: int, j: int|
                0 <= i < d.len() && 0 <= j < d.len() && i != j implies d[i] != d[j] by {
                assert(s[i] == d[i] && s[j] == d[j]);
            }
        }
        lemma_filter_contains(d, p);
        let fd = d.filter(p);
        if p(x) {
            assert(s.filter(p) == fd.push(x));
            assert(!d.contains(x)) by {
                if d.contains(x) {
                    let i = choose|i: int| 0 <= i < d.len() && d[i] == x;
                    assert(s[i] == s[s.len() - 1]);
                }
            }
            assert(!fd.contains(x));
            assert forall|i: int, j: int|
                0 <= i < fd.push(x).len() && 0 <= j < fd.push(x).len() && i != j implies fd.push(
                x,
            )[i] != fd.push(x)[j] by {
                if i < fd.len() && j < fd.len() {
                } else if i < fd.len() {
                    assert(fd.contains(fd[i]));
                } else if j < fd.len() {
                    assert(fd.contains(fd[j]));
                }
            }
        } else {
            assert(s.filter(p) == fd);
        }
    }
}

/// Filtering keeps identities ascending.
proof fn lemma_filter_ascending(ts: Seq<TaskView>, p: spec_fn(TaskView) -> bool)
    requires
        ids_ascending(ts),
    ensures
        ids_ascending(ts.filter(p)),
    decreases ts.len(),
{
    reveal(Seq::filter);
    if ts.len() > 0 {
        let d = ts.drop_last();
        let x = ts.last();
        lemma_filter_ascending(d, p);
        lemma_filter_contains(d, p);
        let fd = d.filter(p);
        if p(x) {
            assert forall|i: int, j: int| 0 <= i < j < fd.push(x).len() implies fd.push(x)[i].id
                < fd.push(x)[j].id by {
                if j == fd.len() {
                    assert(fd.contains(fd[i]));
                    let k = choose|k: int| 0 <= k < d.len() && d[k] == fd[i];
                    assert(ts[k] == d[k]);
                    assert(ts[ts.len() - 1] == x);
                }
            }
        }
    }
}

/// What a pushed sequence contains.
proof fn lemma_push_contains<A>(s: Seq<A>, x: A)
    ensures
        forall|y: A| #[trigger] s.push(x).contains(y) <==> s.contains(y) || y == x,
{
    assert forall|y: A| #[trigger] s.push(x).contains(y) <==> s.contains(y) || y == x by {
        if s.push(x).contains(y) {
            let i = choose|i: int| 0 <= i < s.push(x).len() && s.push(x)[i] == y;
            if i < s.len() {
                assert(s[i] == y);
            }
        }
        if s.contains(y) {
            let i = choose|i: int| 0 <= i < s.len() && s[i] == y;
            assert(s.push(x)[i] == y);
        }
        if y == x {
            assert(s.push(x)[s.len() as int] == y);
        }
    }
}

/// What a sequence contains is what its front contains, and its last item.
proof fn lemma_drop_last_contains<A>(s: Seq<A>)
    requires
        s.len() > 0,
    ensures
        forall|y: A| #[trigger] s.contains(y) <==> s.drop_last().contains(y) || y == s.last(),
{
    assert(s == s.drop_last().push(s.last()));
    lemma_push_contains(s.drop_last(), s.last());
}

/// Pushing an item that is not there keeps a sequence free of duplicates.
proof fn lemma_push_no_duplicates<A>(s: Seq<A>, x: A)
    requires
        s.no_duplicates(),
        !s.contains(x),
    ensures
        s.push(x).no_duplicates(),
{
    assert forall|i: int, j: int|
        0 <= i < s.push(x).len() && 0 <= j < s.push(x).len() && i != j implies s.push(x)[i]
        != s.push(x)[j] by {
        if i < s.len() && j < s.len() {
        } else if i < s.len() {
            assert(s.contains(s[i]));
        } else if j < s.len() {
            assert(s.contains(s[j]));
        }
    }
}

/// Pushing a task whose identity is above all others keeps a list
/// well-formed, its identity going to the bucket of its state.
proof fn lemma_push_task_wf(v: ListView, t: TaskView)
    requires
        v.wf(),
        forall|i: int| 0 <= i < v.tasks.len() ==> v.tasks[i].id < t.id,
    ensures
        (ListView {
            tasks: v.tasks.push(t),
            open: if t.done { v.open } else { v.open.push(t.id) },
            done: if t.done { v.done.push(t.id) } else { v.done },
            ..v
        }).wf(),
{
    let w = ListView {
        tasks: v.tasks.push(t),
        open: if t.done { v.open } else { v.open.push(t.id) },
        done: if t.done { v.done.push(t.id) } else { v.done },
        ..v
    };
    lemma_push_contains(v.tasks, t);
    lemma_push_contains(v.open, t.id);
    lemma_push_contains(v.done, t.id);
    assert forall|u: TaskView| v.tasks.contains(u) implies u.id < t.id by {
        let i = choose|i: int| 0 <= i < v.tasks.len() && v.tasks[i] == u;
    }
    assert(!has_id_in_state(v.tasks, t.id, false));
    assert(!has_id_in_state(v.tasks, t.id, true));
    assert(!v.open.contains(t.id));
    assert(!v.done.contains(t.id));
    if t.done {
        lemma_push_no_duplicates(v.done, t.id);
    } else {
        lemma_push_no_duplicates(v.open, t.id);
    }
    assert forall|id: usize| #[trigger] w.open.contains(id) <==> has_id_in_state(w.tasks, id, false) by {
        if has_id_in_state(w.tasks, id, false) {
            let u = choose|u: TaskView| w.tasks.contains(u) && u.id == id && u.done == false;
            if u != t {
                assert(has_id_in_state(v.tasks, id, false));
            }
        }
        if v.open.contains(id) {
            let u = choose|u: TaskView| v.tasks.contains(u) && u.id == id && u.done == false;
            assert(w.tasks.contains(u));
        }
        if id == t.id && !t.done {
            assert(w.tasks.contains(t));
        }
    }
    assert forall|id: usize| #[trigger] w.done.contains(id) <==> has_id_in_state(w.tasks, id, true) by {
        if has_id_in_state(w.tasks, id, true) {
            let u = choose|u: TaskView| w.tasks.contains(u) && u.id == id && u.done == true;
            if u != t {
                assert(has_id_in_state(v.tasks, id, true));
            }
        }
        if v.done.contains(id) {
            let u = choose|u: TaskView| v.tasks.contains(u) && u.id == id && u.done == true;
            assert(w.tasks.contains(u));
        }
        if id == t.id && t.done {
            assert(w.tasks.contains(t));
        }
    }
}

/// The buckets that `open_ids_of` and `done_ids_of` build for ascending
/// identities make a well-formed list.
proof fn lemma_list_of_wf(path: Seq<char>, ts: Seq<TaskView>)
    requires
        ids_ascending(ts),
    ensures
        list_of(path, ts).wf(),
    decreases ts.len(),
{
    if ts.len() > 0 {
        let d = ts.drop_last();
        let x = ts.last();
        lemma_list_of_wf(path, d);
        assert(ts == d.push(x));
        assert forall|i: int| 0 <= i < d.len() implies d[i].id < x.id by {
            assert(ts[i] == d[i]);
        }
        lemma_push_task_wf(list_of(path, d), x);
    }
}

/// The task of `ts` with identity `id`.
pub open spec fn task_by_id(ts: Seq<TaskView>, id: usize) -> TaskView {
    choose|t: TaskView| ts.contains(t) && t.id == id
}

/// The tasks of `ts` named by `ids`, in that order.
pub open spec fn tasks_by_ids(ts: Seq<TaskView>, ids: Seq<usize>) -> Seq<TaskView> {
    ids.map_values(|id: usize| task_by_id(ts, id))
}

/// Every identity but `id`.
pub open spec fn not_id(id: usize) -> spec_fn(usize) -> bool {
    |x: usize| x != id
}

/// `v` without the task with identity `id`.
pub open spec fn without(v: ListView, id: usize) -> ListView {
    ListView {
        tasks: v.tasks.filter(|t: TaskView| t.id != id),
        open: v.open.filter(not_id(id)),
        done: v.done.filter(not_id(id)),
        ..v
    }
}

/// `v` with task `t` in place of the task with its identity, and that
/// identity moved to the end of the bucket of the state of `t`.
pub open spec fn replaced(v: ListView, t: TaskView) -> ListView {
    ListView {
        tasks: v.tasks.map_values(|u: TaskView| if u.id == t.id { t } else { u }),
        open: if t.done {
            v.open.filter(not_id(t.id))
        } else {
            v.open.filter(not_id(t.id)).push(t.id)
        },
        done: if t.done {
            v.done.filter(not_id(t.id)).push(t.id)
        } else {
            v.done.filter(not_id(t.id))
        },
        ..v
    }
}

/// Within ascending identities one identity names one task.
proof fn lemma_task_by_id(ts: Seq<TaskView>, t: TaskView)
    requires
        ids_ascending(ts),
        ts.contains(t),
    ensures
        task_by_id(ts, t.id) == t,
{
    let u = task_by_id(ts, t.id);
    assert(ts.contains(u) && u.id == t.id);
    let i = choose|i: int| 0 <= i < ts.len() && ts[i] == t;
    let j = choose|j: int| 0 <= j < ts.len() && ts[j] == u;
    if i < j {
        assert(ts[i].id < ts[j].id);
    } else if j < i {
        assert(ts[j].id < ts[i].id);
    }
}

/// Every identity in a bucket names a task.
proof fn lemma_buckets_have_tasks(v: ListView)
    requires
        v.wf(),
    ensures
        forall|k: int| 0 <= k < v.open.len() ==> has_id(v.tasks, #[trigger] v.open[k]),
        forall|k: int| 0 <= k < v.done.len() ==> has_id(v.tasks, #[trigger] v.done[k]),
{
    assert forall|k: int| 0 <= k < v.open.len() implies has_id(v.tasks, #[trigger] v.open[k]) by {
        assert(v.open.contains(v.open[k]));
    }
    assert forall|k: int| 0 <= k < v.done.len() implies has_id(v.tasks, #[trigger] v.done[k]) by {
        assert(v.done.contains(v.done[k]));
    }
}

/// A filter that every item passes keeps the sequence.
proof fn lemma_filter_keeps_all(ts: Seq<TaskView>, id: usize)
    requires
        !has_id(ts, id),
    ensures
        ts.filter(|t: TaskView| t.id != id) == ts,
    decreases ts.len(),
{
    reveal(Seq::filter);
    if ts.len() > 0 {
        lemma_drop_last_contains(ts);
        assert forall|t: TaskView| ts.drop_last().contains(t) implies t.id != id by {
            assert(ts.contains(t));
        }
        lemma_filter_keeps_all(ts.drop_last(), id);
        assert(ts.contains(ts.last()));
        assert(ts.drop_last().push(ts.last()) == ts);
    }
}

/// Removing the one task with an identity is filtering that identity out.
proof fn lemma_remove_is_filter(ts: Seq<TaskView>, i: int)
    requires
        ids_ascending(ts),
        0 <= i < ts.len(),
    ensures
        ts.remove(i) == ts.filter(|t: TaskView| t.id != ts[i].id),
    decreases ts.len(),
{
    reveal(Seq::filter);
    let id = ts[i].id;
    let d = ts.drop_last();
    if i == ts.len() - 1 {
        assert(ts.remove(i) == d);
        assert(!has_id(d, id)) by {
            if has_id(d, id) {
                let t = choose|t: TaskView| d.contains(t) && t.id == id;
                let j = choose|j: int| 0 <= j < d.len() && d[j] == t;
                assert(ts[j].id < ts[i].id);
            }
        }
        lemma_filter_keeps_all(d, id);
    } else {
        assert(ids_ascending(d));
        assert(d[i] == ts[i]);
        lemma_remove_is_filter(d, i);
        assert(ts.last().id != id) by {
            assert(ts[i].id < ts[ts.len() - 1].id);
        }
        assert(ts.remove(i) == d.remove(i).push(ts.last()));
    }
}

/// Removing an identity keeps a list well-formed.
proof fn lemma_without_wf(v: ListView, id: usize)
    requires
        v.wf(),
    ensures
        without(v, id).wf(),
{
    let w = without(v, id);
    let p = |t: TaskView| t.id != id;
    let q = not_id(id);
    lemma_filter_ascending(v.tasks, p);
    lemma_filter_contains(v.tasks, p);
    lemma_filter_contains(v.open, q);
    lemma_filter_contains(v.done, q);
    assert(w.open == v.open.filter(q));
    assert(w.tasks == v.tasks.filter(p));
    assert forall|x: usize| #[trigger] w.open.contains(x) <==> has_id_in_state(w.tasks, x, false) by {
        if has_id_in_state(w.tasks, x, false) {
            let t = choose|t: TaskView| w.tasks.contains(t) && t.id == x && t.done == false;
            assert(v.tasks.contains(t));
        }
        if w.open.contains(x) {
            assert(has_id_in_state(v.tasks, x, false));
            let t = choose|t: TaskView| v.tasks.contains(t) && t.id == x && t.done == false;
            assert(w.tasks.contains(t));
        }
    }
    assert forall|x: usize| #[trigger] w.done.contains(x) <==> has_id_in_state(w.tasks, x, true) by {
        if has_id_in_state(w.tasks, x, true) {
            let t = choose|t: TaskView| w.tasks.contains(t) && t.id == x && t.done == true;
            assert(v.tasks.contains(t));
        }
        if w.done.contains(x) {
            assert(has_id_in_state(v.tasks, x, true));
            let t = choose|t: TaskView| v.tasks.contains(t) && t.id == x && t.done == true;
            assert(w.tasks.contains(t));
        }
    }
}

/// Replacing the task at `i`, which has the identity of `t`, keeps a list
/// well-formed; in the tasks it is an update at `i`.
proof fn lemma_replaced_wf(v: ListView, t: TaskView, i: int)
    requires
        v.wf(),
        0 <= i < v.tasks.len(),
        v.tasks[i].id == t.id,
    ensures
        replaced(v, t).wf(),
        replaced(v, t).tasks == v.tasks.update(i, t),
{
    let w = replaced(v, t);
    let q = not_id(t.id);
    assert(w.tasks =~= v.tasks.update(i, t)) by {
        assert forall|j: int| 0 <= j < v.tasks.len() && j != i implies v.tasks[j].id != t.id by {
            if j < i {
                assert(v.tasks[j].id < v.tasks[i].id);
            } else {
                assert(v.tasks[i].id < v.tasks[j].id);
            }
        }
    }
    lemma_filter_contains(v.open, q);
    lemma_filter_contains(v.done, q);
    lemma_push_contains(v.open.filter(q), t.id);
    lemma_push_contains(v.done.filter(q), t.id);
    if t.done {
        lemma_push_no_duplicates(v.done.filter(q), t.id);
    } else {
        lemma_push_no_duplicates(v.open.filter(q), t.id);
    }
    assert forall|u: TaskView|
        #[trigger] w.tasks.contains(u) && u.id != t.id implies v.tasks.contains(u) by {
        let j = choose|j: int| 0 <= j < w.tasks.len() && w.tasks[j] == u;
        assert(v.tasks[j] == u);
    }
    assert forall|u: TaskView|
        #[trigger] v.tasks.contains(u) && u.id != t.id implies w.tasks.contains(u) by {
        let j = choose|j: int| 0 <= j < v.tasks.len() && v.tasks[j] == u;
        assert(j != i);
        assert(w.tasks[j] == u);
    }
    assert(w.tasks[i] == t);
    assert(w.tasks.contains(t));
    assert forall|u: TaskView|
        #[trigger] w.tasks.contains(u) && u.id == t.id implies u == t by {
        let j = choose|j: int| 0 <= j < w.tasks.len() && w.tasks[j] == u;
        if j != i {
            if j < i {
                assert(v.tasks[j].id < v.tasks[i].id);
            } else {
                assert(v.tasks[i].id < v.tasks[j].id);
            }
        }
    }
    assert forall|x: usize| #[trigger] w.open.contains(x) <==> has_id_in_state(w.tasks, x, false) by {
        if x != t.id {
            if has_id_in_state(w.tasks, x, false) {
                let u = choose|u: TaskView| w.tasks.contains(u) && u.id == x && u.done == false;
                assert(v.tasks.contains(u));
            }
            if has_id_in_state(v.tasks, x, false) {
                let u = choose|u: TaskView| v.tasks.contains(u) && u.id == x && u.done == false;
                assert(w.tasks.contains(u));
            }
        }
    }
    assert forall|x: usize| #[trigger] w.done.contains(x) <==> has_id_in_state(w.tasks, x, true) by {
        if x != t.id {
            if has_id_in_state(w.tasks, x, true) {
                let u = choose|u: TaskView| w.tasks.contains(u) && u.id == x && u.done == true;
                assert(v.tasks.contains(u));
            }
            if has_id_in_state(v.tasks, x, true) {
                let u = choose|u: TaskView| v.tasks.contains(u) && u.id == x && u.done == true;
                assert(w.tasks.contains(u));
            }
        }
    }
}

/// `v` without the identity `id`.
fn ids_without(v: &Vec<usize>, id: usize) -> (r: Vec<usize>)
    ensures
        r@ == v@.filter(not_id(id)),
{
    let ghost pred = not_id(id);
    let mut r: Vec<usize> = Vec::new();
    let mut i: usize = 0;
    while i < v.len()
        invariant
            pred == not_id(id),
            i <= v@.len(),
            r@ == v@.subrange(0, i as int).filter(pred),
        decreases v.len() - i,
    {
        let ghost next = v@.subrange(0, i + 1);
        assert(next.drop_last() == v@.subrange(0, i as int));
        reveal(Seq::filter);
        assert(pred(v@[i as int]) == (v@[i as int] != id));
        if v[i] != id {
            r.push(v[i]);
        }
        i = i + 1;
    }
    assert(v@.subrange(0, i as int) == v@);
    r
}

/// The identity that the next added task gets: one above the largest, or
/// zero for an empty list.
pub open spec fn next_id(ts: Seq<TaskView>) -> int {
    if ts.len() == 0 {
        0
    } else {
        ts.last().id + 1
    }
}

/// `v` with task `t` added at the end, its identity in the bucket of its state.
pub open spec fn with_task(v: ListView, t: TaskView) -> ListView {
    ListView {
        tasks: v.tasks.push(t),
        open: if t.done { v.open } else { v.open.push(t.id) },
        done: if t.done { v.done.push(t.id) } else { v.done },
        ..v
    }
}

/// The empty list kept at `path`.
pub fn build_default_list(path: &str) -> (r: List)
    ensures
        r@ == list_of(path@, Seq::empty()),
        r@.wf(),
{
    List::new_empty_with_path(path.to_owned())
}

/// Copies of the tasks of `ts`.
fn clone_tasks(ts: &Vec<Task>) -> (r: Vec<Task>)
    ensures
        task_views(r@) == task_views(ts@),
{
    let mut r: Vec<Task> = Vec::new();
    let mut i: usize = 0;
    while i < ts.len()
        invariant
            i <= ts@.len(),
            r@.len() == i,
            forall|j: int| 0 <= j < i ==> (#[trigger] r@[j])@ == ts@[j]@,
        decreases ts.len() - i,
    {
        r.push(ts[i].clone());
        i = i + 1;
    }
    assert(task_views(r@) =~= task_views(ts@));
    r
}

impl List {
    fn new_empty_with_path(path: String) -> (r: List)
        ensures
            r@ == list_of(path@, Seq::empty()),
            r@.wf(),
    {
        let r = List { file_path: path, tasks: Vec::new(), open_tasks: Vec::new(), done_tasks: Vec::new() };
        assert(task_views(r.tasks@) =~= Seq::<TaskView>::empty());
        proof {
            lemma_list_of_wf(path@, Seq::empty());
        }
        r
    }

    /// The list of `tasks`, whose identities ascend, kept at `path`.
    pub(crate) fn from_tasks(path: String, tasks: Vec<Task>) -> (r: List)
        requires
            ids_ascending(task_views(tasks@)),
        ensures
            r@ == list_of(path@, task_views(tasks@)),
            r@.wf(),
    {
        let ghost ts = task_views(tasks@);
        let mut open: Vec<usize> = Vec::new();
        let mut done: Vec<usize> = Vec::new();
        let mut i: usize = 0;
        while i < tasks.len()
            invariant
                ts == task_views(tasks@),
                i <= tasks@.len(),
                open@ == open_ids_of(ts.subrange(0, i as int)),
                done@ == done_ids_of(ts.subrange(0, i as int)),
            decreases tasks.len() - i,
        {
            let ghost next = ts.subrange(0, i + 1);
            assert(next.drop_last() == ts.subrange(0, i as int));
            assert(next.last() == tasks@[i as int]@);
            if tasks[i].is_done() {
                done.push(tasks[i].id());
            } else {
                open.push(tasks[i].id());
            }
            i = i + 1;
        }
        assert(ts.subrange(0, i as int) == ts);
        proof {
            lemma_list_of_wf(path@, ts);
        }
        List { file_path: path, tasks, open_tasks: open, done_tasks: done }
    }

    /// The index of the task with identity `id`, found by bisection.
    fn find_index(&self, id: usize) -> (r: Option<usize>)
        requires
            self@.wf(),
        ensures
            r matches Some(i) ==> i < self@.tasks.len() && self@.tasks[i as int].id == id,
            r is None ==> !has_id(self@.tasks, id),
    {
        let ghost ts = self@.tasks;
        let mut lo: usize = 0;
        let mut hi: usize = self.tasks.len();
        while lo < hi
            invariant
                ts == self@.tasks,
                ids_ascending(ts),
                lo <= hi <= ts.len(),
                forall|i: int| 0 <= i < lo ==> ts[i].id < id,
                forall|i: int| hi <= i < ts.len() ==> ts[i].id > id,
            decreases hi - lo,
        {
            let mid = lo + (hi - lo) / 2;
            let m = self.tasks[mid].id();
            assert(ts[mid as int] == self.tasks@[mid as int]@);
            if m == id {
                return Some(mid);
            } else if m < id {
                lo = mid + 1;
            } else {
                hi = mid;
            }
        }
        assert forall|t: TaskView| ts.contains(t) implies t.id != id by {
            let i = choose|i: int| 0 <= i < ts.len() && ts[i] == t;
        }
        None
    }

    /// Whether some task has identity `id`.
    pub fn is_id_used(&self, id: usize) -> (r: bool)
        requires
            self@.wf(),
        ensures
            r == has_id(self@.tasks, id),
    {
        match self.find_index(id) {
            Some(i) => {
                assert(self@.tasks.contains(self@.tasks[i as int]));
                true
            },
            None => false,
        }
    }

    /// The largest identity, or `None` for an empty list.
    pub fn max_id(&self) -> (r: Option<usize>)
        requires
            self@.wf(),
        ensures
            r is None <==> self@.tasks.len() == 0,
            r matches Some(m) ==> has_id(self@.tasks, m) && forall|i: int|
                0 <= i < self@.tasks.len() ==> self@.tasks[i].id <= m,
    {
        let n = self.tasks.len();
        if n == 0 {
            None
        } else {
            let m = self.tasks[n - 1].id();
            let ghost ts = self@.tasks;
            assert(ts[n - 1] == self.tasks@[n - 1]@);
            assert(ts.contains(ts[n - 1]));
            assert forall|i: int| 0 <= i < ts.len() implies ts[i].id <= m by {
                if i < n - 1 {
                    assert(ts[i].id < ts[n - 1].id);
                }
            }
            Some(m)
        }
    }

    /// Adds `task`, whose identity is above all others.
    fn push_task(&mut self, task: Task)
        requires
            old(self)@.wf(),
            forall|i: int| 0 <= i < old(self)@.tasks.len() ==> old(self)@.tasks[i].id < task@.id,
        ensures
            final(self)@ == with_task(old(self)@, task@),
            final(self)@.wf(),
    {
        proof {
            lemma_push_task_wf(self@, task@);
        }
        if task.is_done() {
            self.done_tasks.push(task.id());
        } else {
            self.open_tasks.push(task.id());
        }
        let ghost before = self.tasks@;
        self.tasks.push(task);
        assert(task_views(self.tasks@) =~= task_views(before).push(task@));
    }

    /// Reads `raw` as a task and adds it under the next identity: one above
    /// the largest, or zero for an empty list.
    pub fn add(&mut self, raw: &str)
        requires
            old(self)@.wf(),
            next_id(old(self)@.tasks) <= usize::MAX,
        ensures
            final(self)@ == with_task(old(self)@, parse_line(raw@, next_id(old(self)@.tasks) as usize)),
            final(self)@.wf(),
    {
        let id = match self.max_id() {
            Some(m) => m + 1,
            None => 0,
        };
        let ghost ts = self@.tasks;
        assert(id == next_id(ts)) by {
            if ts.len() > 0 {
                let m = ts.last().id;
                assert(ts[ts.len() - 1] == ts.last());
            }
        }
        let task = Task::new(raw, id);
        assert forall|i: int| 0 <= i < ts.len() implies ts[i].id < task@.id by {
            if i < ts.len() - 1 {
                assert(ts[i].id < ts[ts.len() - 1].id);
            }
        }
        self.push_task(task);
    }

    /// Copies of all tasks, ascending by identity.
    pub fn tasks(&self) -> (r: Vec<Task>)
        ensures
            task_views(r@) == self@.tasks,
    {
        clone_tasks(&self.tasks)
    }

    /// The list of the tasks that pass filter `f` for query `q`.
    fn filtered(&self, f: Filter, q: &str) -> (r: List)
        requires
            self@.wf(),
        ensures
            r@ == list_of(self@.path, select(self@.tasks, f, crate::query::folded_query(f, q@))),
            r@.wf(),
    {
        let folded = fold_query(f, q);
        let kept = filter_tasks(&self.tasks, f, folded.as_str());
        proof {
            lemma_filter_ascending(
                self@.tasks,
                |t: TaskView| crate::query::passes(f, folded@, t),
            );
        }
        List::from_tasks(self.file_path.clone(), kept)
    }

    /// The tasks, open and done, whose priority letter is `prio` in upper case.
    pub fn by_prio(&self, prio: &str) -> (r: List)
        requires
            self@.wf(),
        ensures
            r@ == list_of(self@.path, select(self@.tasks, Filter::Priority, upper_of(prio@))),
            r@.wf(),
    {
        self.filtered(Filter::Priority, prio)
    }

    /// The tasks, open and done, with a context tag that holds `context`,
    /// both taken in lower case.
    pub fn by_context(&self, context: &str) -> (r: List)
        requires
            self@.wf(),
        ensures
            r@ == list_of(self@.path, select(self@.tasks, Filter::Context, lower_of(context@))),
            r@.wf(),
    {
        self.filtered(Filter::Context, context)
    }

    /// The tasks, open and done, with a project tag that holds `project`,
    /// both taken in lower case.
    pub fn by_project(&self, project: &str) -> (r: List)
        requires
            self@.wf(),
        ensures
            r@ == list_of(self@.path, select(self@.tasks, Filter::Project, lower_of(project@))),
            r@.wf(),
    {
        self.filtered(Filter::Project, project)
    }

    /// The tasks, open and done, with a special key that holds `special`,
    /// both taken in lower case.
    pub fn by_special(&self, special: &str) -> (r: List)
        requires
            self@.wf(),
        ensures
            r@ == list_of(self@.path, select(self@.tasks, Filter::Special, lower_of(special@))),
            r@.wf(),
    {
        self.filtered(Filter::Special, special)
    }

    /// All tasks ascending by `by`; tasks with equal keys keep the order of
    /// their identities, which is the order they were added in.
    pub fn sort(&self, by: SortBy) -> (r: Vec<Task>)
        ensures
            is_stable_sort(self@.tasks, task_views(r@), by),
    {
        sort_tasks(&self.tasks, by)
    }

    /// Where the list is kept.
    pub fn path(&self) -> (r: &String)
        ensures
            r@ == self@.path,
    {
        &self.file_path
    }

    /// A copy of the task with identity `id`, if there is one.
    pub fn get(&self, id: usize) -> (r: Option<Task>)
        requires
            self@.wf(),
        ensures
            r is Some <==> has_id(self@.tasks, id),
            r matches Some(t) ==> self@.tasks.contains(t@) && t@.id == id,
    {
        match self.find_index(id) {
            Some(i) => {
                let t = self.tasks[i].clone();
                assert(self@.tasks[i as int] == self.tasks@[i as int]@);
                assert(self@.tasks.contains(self@.tasks[i as int]));
                Some(t)
            },
            None => None,
        }
    }

    /// Copies of the tasks named by `ids`, in that order.
    fn tasks_of_ids(&self, ids: &Vec<usize>) -> (r: Vec<Task>)
        requires
            self@.wf(),
            forall|k: int| 0 <= k < ids@.len() ==> has_id(self@.tasks, #[trigger] ids@[k]),
        ensures
            task_views(r@) == tasks_by_ids(self@.tasks, ids@),
    {
        let mut r: Vec<Task> = Vec::new();
        let mut k: usize = 0;
        while k < ids.len()
            invariant
                self@.wf(),
                forall|k: int| 0 <= k < ids@.len() ==> has_id(self@.tasks, #[trigger] ids@[k]),
                k <= ids@.len(),
                r@.len() == k,
                forall|j: int|
                    0 <= j < k ==> (#[trigger] r@[j])@ == task_by_id(self@.tasks, ids@[j]),
            decreases ids.len() - k,
        {
            let id = ids[k];
            assert(has_id(self@.tasks, ids@[k as int]));
            match self.find_index(id) {
                Some(i) => {
                    let t = self.tasks[i].clone();
                    proof {
                        assert(self@.tasks[i as int] == self.tasks@[i as int]@);
                        assert(self@.tasks.contains(t@));
                        lemma_task_by_id(self@.tasks, t@);
                    }
                    r.push(t);
                },
                None => {},
            }
            k = k + 1;
        }
        assert(task_views(r@) =~= tasks_by_ids(self@.tasks, ids@));
        r
    }

    /// Copies of the done tasks, in the order of the done bucket.
    pub fn done(&self) -> (r: Vec<Task>)
        requires
            self@.wf(),
        ensures
            task_views(r@) == tasks_by_ids(self@.tasks, self@.done),
    {
        proof {
            lemma_buckets_have_tasks(self@);
        }
        self.tasks_of_ids(&self.done_tasks)
    }

    /// Copies of the open tasks, in the order of the open bucket.
    pub fn open(&self) -> (r: Vec<Task>)
        requires
            self@.wf(),
        ensures
            task_views(r@) == tasks_by_ids(self@.tasks, self@.open),
    {
        proof {
            lemma_buckets_have_tasks(self@);
        }
        self.tasks_of_ids(&self.open_tasks)
    }

    /// Removes the task with identity `id`, if there is one.
    pub fn remove(&mut self, id: usize)
        requires
            old(self)@.wf(),
        ensures
            final(self)@ == without(old(self)@, id),
            final(self)@.wf(),
    {
        let ghost v = self@;
        let found = self.find_index(id);
        let done = ids_without(&self.done_tasks, id);
        let open = ids_without(&self.open_tasks, id);
        self.done_tasks = done;
        self.open_tasks = open;
        match found {
            Some(i) => {
                let ghost before = self.tasks@;
                let _ = self.tasks.remove(i);
                assert(task_views(self.tasks@) =~= task_views(before).remove(i as int));
                proof {
                    lemma_remove_is_filter(v.tasks, i as int);
                }
            },
            None => {
                proof {
                    lemma_filter_keeps_all(v.tasks, id);
                }
            },
        }
        proof {
            lemma_without_wf(v, id);
        }
    }

    /// Replaces the task with identity `id` by `new_task`, which must carry
    /// that identity, and files its identity under its state.
    pub fn update(&mut self, new_task: Task, id: usize) -> (r: Result<(), AnansiError>)
        requires
            old(self)@.wf(),
        ensures
            r is Err <==> !has_id(old(self)@.tasks, id) || new_task@.id != id,
            r matches Err(e) ==> e == AnansiError::UnknownId && final(self)@ == old(self)@,
            r is Ok ==> final(self)@ == replaced(old(self)@, new_task@),
            final(self)@.wf(),
    {
        let ghost v = self@;
        let found = self.find_index(id);
        let i = match found {
            Some(i) => i,
            None => {
                return Err(AnansiError::UnknownId);
            },
        };
        if new_task.id() != id {
            assert(self@.tasks.contains(self@.tasks[i as int]));
            return Err(AnansiError::UnknownId);
        }
        proof {
            assert(v.tasks.contains(v.tasks[i as int]));
            lemma_replaced_wf(v, new_task@, i as int);
        }
        let new_done = new_task.is_done();
        let ghost t = new_task@;
        let ghost before = self.tasks@;
        self.tasks.set(i, new_task);
        assert(task_views(self.tasks@) =~= task_views(before).update(i as int, t));
        let mut open = ids_without(&self.open_tasks, id);
        let mut done = ids_without(&self.done_tasks, id);
        if new_done {
            done.push(id);
        } else {
            open.push(id);
        }
        self.open_tasks = open;
        self.done_tasks = done;
        Ok(())
    }
}

} // verus!
