use vstd::prelude::*;

use crate::date::Date;
use crate::task::{priority_rank, task_views, Task, TaskView};

verus! {

/// The field that tasks are sorted by.
#[derive(Debug, Clone, Copy, PartialEq, Eq, Structural)]
pub enum SortBy {
    Priority,
    InceptionDate,
    CompletionDate,
}

/// A date as one number that orders dates as the triple (year, month, day)
/// does; every unset date comes first, as zero.
pub open spec fn date_key(d: Date) -> int {
    if d.year == 0 {
        0
    } else {
        d.year as int * 65536 + d.month as int * 256 + d.day as int
    }
}

/// What tasks are sorted on: the priority rank, or a date key.
pub open spec fn sort_key(t: TaskView, by: SortBy) -> int {
    match by {
        SortBy::Priority => priority_rank(t.priority),
        SortBy::InceptionDate => date_key(t.inception_date),
        SortBy::CompletionDate => date_key(t.completion_date),
    }
}

/// `output` is `input` rearranged, with `output[i] == input[p[i]]`, ascending
/// by key, and tasks with equal keys keep their relative order.
pub open spec fn is_stable_arrangement(
    input: Seq<TaskView>,
    output: Seq<TaskView>,
    by: SortBy,
    p: Seq<int>,
) -> bool {
    &&& p.len() == input.len()
    &&& output.len() == input.len()
    &&& forall|i: int| 0 <= i < p.len() ==> 0 <= #[trigger] p[i] < input.len()
    &&& forall|i: int| 0 <= i < p.len() ==> #[trigger] output[i] == input[p[i]]
    &&& forall|i: int, j: int| 0 <= i < j < p.len() ==> p[i] != p[j]
    &&& forall|i: int, j: int|
        0 <= i < j < output.len() ==> sort_key(output[i], by) <= sort_key(output[j], by)
    &&& forall|i: int, j: int|
        0 <= i < j < output.len() && sort_key(output[i], by) == sort_key(output[j], by) ==> p[i]
            < p[j]
}

/// `output` is the stable sort of `input` by `by`.
pub open spec fn is_stable_sort(input: Seq<TaskView>, output: Seq<TaskView>, by: SortBy) -> bool {
    exists|p: Seq<int>| is_stable_arrangement(input, output, by, p)
}

fn date_key_of(d: Date) -> (r: u64)
    ensures
        r == date_key(d),
{
    if d.year == 0 {
        0
    } else {
        d.year as u64 * 65536 + d.month as u64 * 256 + d.day as u64
    }
}

/// The key that `t` is sorted on.
pub fn key_of(t: &Task, by: SortBy) -> (r: u64)
    ensures
        r == sort_key(t@, by),
{
    match by {
        SortBy::Priority => t.rank() as u64,
        SortBy::InceptionDate => date_key_of(t.inception()),
        SortBy::CompletionDate => date_key_of(t.completion()),
    }
}

/// The tasks ascending by `by`; tasks with equal keys keep their order.
pub fn sort_tasks(tasks: &Vec<Task>, by: SortBy) -> (r: Vec<Task>)
    ensures
        is_stable_sort(task_views(tasks@), task_views(r@), by),
{
    let ghost input = task_views(tasks@);
    let ghost mut p: Seq<int> = Seq::empty();
    let mut out: Vec<Task> = Vec::new();
    let mut i: usize = 0;
    while i < tasks.len()
        invariant
            input == task_views(tasks@),
            i <= tasks@.len(),
            p.len() == i,
            out@.len() == i,
            forall|a: int| 0 <= a < i ==> 0 <= #[trigger] p[a] < i,
            forall|a: int| 0 <= a < i ==> (#[trigger] out@[a])@ == input[p[a]],
            forall|a: int, b: int| 0 <= a < b < i ==> p[a] != p[b],
            forall|a: int, b: int|
                0 <= a < b < i ==> sort_key(out@[a]@, by) <= sort_key(out@[b]@, by),
            forall|a: int, b: int|
                0 <= a < b < i && sort_key(out@[a]@, by) == sort_key(out@[b]@, by) ==> p[a]
                    < p[b],
        decreases tasks.len() - i,
    {
        let k = key_of(&tasks[i], by);
        let mut pos: usize = 0;
        while pos < out.len() && key_of(&out[pos], by) <= k
            invariant
                pos <= out@.len(),
                forall|a: int| 0 <= a < pos ==> sort_key(#[trigger] out@[a]@, by) <= k,
            decreases out.len() - pos,
        {
            pos = pos + 1;
        }
        let ghost old_out = out@;
        let ghost old_p = p;
        let c = tasks[i].clone();
        assert(c@ == input[i as int]);
        out.insert(pos, c);
        proof {
            p = p.insert(pos as int, i as int);
            assert forall|a: int| 0 <= a < i + 1 implies (#[trigger] out@[a])@ == input[p[a]] by {
                if a < pos {
                    assert(out@[a] == old_out[a]);
                } else if a > pos {
                    assert(out@[a] == old_out[a - 1]);
                }
            }
            assert forall|a: int| 0 <= a < i + 1 implies 0 <= #[trigger] p[a] < i + 1 by {
                if a < pos {
                    assert(p[a] == old_p[a]);
                } else if a > pos {
                    assert(p[a] == old_p[a - 1]);
                }
            }
            assert forall|a: int, b: int| 0 <= a < b < i + 1 implies p[a] != p[b] by {
                if a < pos && b < pos {
                    assert(p[a] == old_p[a] && p[b] == old_p[b]);
                } else if a < pos && b > pos {
                    assert(p[a] == old_p[a] && p[b] == old_p[b - 1]);
                } else if a > pos && b > pos {
                    assert(p[a] == old_p[a - 1] && p[b] == old_p[b - 1]);
                } else if a == pos {
                    assert(p[b] == old_p[b - 1]);
                } else {
                    assert(p[a] == old_p[a]);
                }
            }
            assert forall|a: int, b: int| 0 <= a < b < i + 1 implies sort_key(out@[a]@, by)
                <= sort_key(out@[b]@, by) && (sort_key(out@[a]@, by) == sort_key(out@[b]@, by)
                ==> p[a] < p[b]) by {
                if pos < old_out.len() {
                    assert(sort_key(old_out[pos as int]@, by) > k);
                }
                if a < pos && b < pos {
                    assert(out@[a] == old_out[a] && out@[b] == old_out[b]);
                    assert(p[a] == old_p[a] && p[b] == old_p[b]);
                } else if a < pos && b > pos {
                    assert(out@[a] == old_out[a] && out@[b] == old_out[b - 1]);
                    assert(p[a] == old_p[a] && p[b] == old_p[b - 1]);
                    assert(sort_key(old_out[a]@, by) <= k);
                    if b - 1 > pos {
                        assert(sort_key(old_out[pos as int]@, by) <= sort_key(old_out[b - 1]@, by));
                    }
                } else if a > pos && b > pos {
                    assert(out@[a] == old_out[a - 1] && out@[b] == old_out[b - 1]);
                    assert(p[a] == old_p[a - 1] && p[b] == old_p[b - 1]);
                } else if a == pos {
                    assert(out@[b] == old_out[b - 1]);
                    assert(p[b] == old_p[b - 1]);
                    if b - 1 > pos {
                        assert(sort_key(old_out[pos as int]@, by) <= sort_key(old_out[b - 1]@, by));
                    }
                } else {
                    assert(out@[a] == old_out[a]);
                    assert(p[a] == old_p[a]);
                    assert(sort_key(old_out[a]@, by) <= k);
                }
            }
        }
        i = i + 1;
    }
    proof {
        let output = task_views(out@);
        assert(is_stable_arrangement(input, output, by, p));
    }
    out
}

/// The name of a sort field, as people read it.
pub open spec fn sort_label(by: SortBy) -> Seq<char> {
    match by {
        SortBy::Priority => "Priority"@,
        SortBy::InceptionDate => "Inception date"@,
        SortBy::CompletionDate => "Completion date"@,
    }
}

impl SortBy {
    /// The name of the sort field, as people read it.
    pub fn label(&self) -> (r: String)
        ensures
            r@ == sort_label(*self),
    {
        match self {
            SortBy::Priority => "Priority".to_owned(),
            SortBy::InceptionDate => "Inception date".to_owned(),
            SortBy::CompletionDate => "Completion date".to_owned(),
        }
    }

    /// The sort field with name `name`, if there is one.
    pub fn from_label(name: &str) -> (r: Option<SortBy>)
        ensures
            r matches Some(by) ==> sort_label(by) == name@,
            r is None ==> forall|by: SortBy| sort_label(by) != name@,
    {
        let wanted = name.to_owned();
        let candidates = [SortBy::Priority, SortBy::InceptionDate, SortBy::CompletionDate];
        let mut i: usize = 0;
        while i < 3
            invariant
                candidates@ == seq![SortBy::Priority, SortBy::InceptionDate, SortBy::CompletionDate],
                i <= 3,
                wanted@ == name@,
                forall|k: int| 0 <= k < i ==> sort_label(#[trigger] candidates@[k]) != name@,
            decreases 3 - i,
        {
            let by = candidates[i];
            if by.label() == wanted {
                return Some(by);
            }
            i = i + 1;
        }
        assert forall|by: SortBy| sort_label(by) != name@ by {
            match by {
                SortBy::Priority => assert(candidates@[0] == by),
                SortBy::InceptionDate => assert(candidates@[1] == by),
                SortBy::CompletionDate => assert(candidates@[2] == by),
            }
        }
        None
    }
}

} // verus!
