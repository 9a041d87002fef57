use vstd::prelude::*;

use crate::task::{priority_text, task_views, Task, TaskView};
use crate::text::{contains_seq, contains_text, lower_of, strings_view, to_lower, to_upper, upper_of};

verus! {

/// The four ways of selecting tasks.
#[derive(Debug, Clone, Copy, PartialEq, Eq, Structural)]
pub enum Filter {
    /// The priority letter equals the query, both in upper case.
    Priority,
    /// The query, in lower case, occurs in some context tag in lower case.
    Context,
    /// The query, in lower case, occurs in some project tag in lower case.
    Project,
    /// The query, in lower case, occurs in some special key in lower case.
    Special,
}

/// The query as it is compared: upper case for a priority, lower case
/// otherwise.
pub open spec fn folded_query(f: Filter, q: Seq<char>) -> Seq<char> {
    match f {
        Filter::Priority => upper_of(q),
        _ => lower_of(q),
    }
}

/// Whether `q` occurs in some tag of `tags`, the tag taken in lower case.
pub open spec fn some_tag_contains(tags: Seq<Seq<char>>, q: Seq<char>) -> bool {
    exists|i: int| 0 <= i < tags.len() && contains_seq(lower_of(#[trigger] tags[i]), q)
}

/// The keys of the special tags of a task.
pub open spec fn special_keys(t: TaskView) -> Seq<Seq<char>> {
    t.specials.map_values(|p: (Seq<char>, Seq<char>)| p.0)
}

/// Whether task `t` passes filter `f` for the folded query `q`.
pub open spec fn passes(f: Filter, q: Seq<char>, t: TaskView) -> bool {
    match f {
        Filter::Priority => priority_text(t.priority) == q,
        Filter::Context => some_tag_contains(t.contexts, q),
        Filter::Project => some_tag_contains(t.projects, q),
        Filter::Special => some_tag_contains(special_keys(t), q),
    }
}

/// The tasks of `ts` that pass filter `f` for the folded query `q`, in order.
pub open spec fn select(ts: Seq<TaskView>, f: Filter, q: Seq<char>) -> Seq<TaskView> {
    ts.filter(|t: TaskView| passes(f, q, t))
}

/// Two filters applied one after the other keep exactly the tasks that pass
/// both, in their order, whichever filter comes first.
pub proof fn lemma_filters_commute(
    ts: Seq<TaskView>,
    f: Filter,
    q: Seq<char>,
    g: Filter,
    r: Seq<char>,
)
    ensures
        select(select(ts, f, q), g, r) == ts.filter(|t: TaskView| passes(f, q, t) && passes(g, r, t)),
        select(select(ts, g, r), f, q) == select(select(ts, f, q), g, r),
    decreases ts.len(),
{
    reveal(Seq::filter);
    let by_f = |t: TaskView| passes(f, q, t);
    let by_g = |t: TaskView| passes(g, r, t);
    let both = |t: TaskView| passes(f, q, t) && passes(g, r, t);
    if ts.len() > 0 {
        let s = ts.drop_last();
        let x = ts.last();
        lemma_filters_commute(s, f, q, g, r);
        let front_f = s.filter(by_f);
        let front_g = s.filter(by_g);
        assert(front_f.push(x).drop_last() == front_f);
        assert(front_g.push(x).drop_last() == front_g);
        assert(front_f.filter(by_g).push(x).drop_last() == front_f.filter(by_g));
        if by_f(x) {
            assert(ts.filter(by_f) == front_f.push(x));
        } else {
            assert(ts.filter(by_f) == front_f);
        }
        if by_g(x) {
            assert(ts.filter(by_g) == front_g.push(x));
        } else {
            assert(ts.filter(by_g) == front_g);
        }
        assert(ts.filter(both) == if both(x) { s.filter(both).push(x) } else { s.filter(both) });
    }
}

/// Folds a query for filter `f`.
pub fn fold_query(f: Filter, q: &str) -> (r: String)
    ensures
        r@ == folded_query(f, q@),
{
    match f {
        Filter::Priority => to_upper(q),
        _ => to_lower(q),
    }
}

/// Whether `q` occurs in some tag, the tag taken in lower case.
fn tag_list_contains(tags: &Vec<String>, q: &str) -> (r: bool)
    ensures
        r == some_tag_contains(strings_view(tags@), q@),
{
    let ghost tv = strings_view(tags@);
    let mut i: usize = 0;
    while i < tags.len()
        invariant
            tv == strings_view(tags@),
            i <= tags@.len(),
            forall|k: int| 0 <= k < i ==> !contains_seq(lower_of(#[trigger] tv[k]), q@),
        decreases tags.len() - i,
    {
        let lowered = to_lower(tags[i].as_str());
        if contains_text(lowered.as_str(), q) {
            assert(tv[i as int] == tags@[i as int]@);
            return true;
        }
        assert(tv[i as int] == tags@[i as int]@);
        i = i + 1;
    }
    false
}

/// Whether task `t` passes filter `f` for the folded query `q`.
pub fn task_passes(t: &Task, f: Filter, q: &str) -> (r: bool)
    ensures
        r == passes(f, q@, t@),
{
    match f {
        Filter::Priority => {
            let p = t.prio();
            let owned = q.to_owned();
            p == owned
        },
        Filter::Context => tag_list_contains(t.contexts(), q),
        Filter::Project => tag_list_contains(t.projects(), q),
        Filter::Special => {
            let specials = t.specials();
            let mut keys: Vec<String> = Vec::new();
            let mut i: usize = 0;
            while i < specials.len()
                invariant
                    i <= specials@.len(),
                    keys@.len() == i,
                    forall|k: int| 0 <= k < i ==> (#[trigger] keys@[k])@ == specials@[k].0@,
                decreases specials.len() - i,
            {
                keys.push(specials[i].0.clone());
                i = i + 1;
            }
            assert(strings_view(keys@) =~= special_keys(t@));
            tag_list_contains(&keys, q)
        },
    }
}

/// The tasks of `ts` that pass filter `f` for the folded query `q`, in order.
pub fn filter_tasks(ts: &Vec<Task>, f: Filter, q: &str) -> (r: Vec<Task>)
    ensures
        task_views(r@) == select(task_views(ts@), f, q@),
{
    let ghost tv = task_views(ts@);
    let ghost pred = |t: TaskView| passes(f, q@, t);
    let mut r: Vec<Task> = Vec::new();
    let mut i: usize = 0;
    while i < ts.len()
        invariant
            tv == task_views(ts@),
            pred == (|t: TaskView| passes(f, q@, t)),
            i <= ts@.len(),
            task_views(r@) == tv.subrange(0, i as int).filter(pred),
        decreases ts.len() - i,
    {
        let ghost prefix = tv.subrange(0, i + 1);
        assert(prefix.drop_last() == tv.subrange(0, i as int));
        assert(prefix.last() == ts@[i as int]@);
        reveal(Seq::filter);
        if task_passes(&ts[i], f, q) {
            let c = ts[i].clone();
            let ghost before = r@;
            r.push(c);
            assert(task_views(r@) =~= task_views(before).push(c@));
        }
        i = i + 1;
    }
    assert(tv.subrange(0, i as int) == tv);
    r
}

} // verus!
