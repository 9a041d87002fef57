use vstd::prelude::*;

use crate::query::{filter_tasks, fold_query, select, Filter};
use crate::task::{task_views, Task, TaskView};
use crate::text::{lower_of, upper_of};

verus! {

/// A sequence of tasks that filters can be chained on.
#[derive(Debug)]
pub struct TaskList {
    tasks: Vec<Task>,
}

impl View for TaskList {
    type V = Seq<TaskView>;

    closed spec fn view(&self) -> Seq<TaskView> {
        task_views(self.tasks@)
    }
}

impl TaskList {
    /// The sequence of `tasks`.
    pub fn new(tasks: Vec<Task>) -> (r: TaskList)
        ensures
            r@ == task_views(tasks@),
    {
        TaskList { tasks }
    }

    /// The tasks, in order.
    pub fn tasks(&self) -> (r: &Vec<Task>)
        ensures
            task_views(r@) == self@,
    {
        &self.tasks
    }

    fn filtered(&self, f: Filter, q: &str) -> (r: TaskList)
        ensures
            r@ == select(self@, f, crate::query::folded_query(f, q@)),
    {
        let folded = fold_query(f, q);
        TaskList { tasks: filter_tasks(&self.tasks, f, folded.as_str()) }
    }

    /// The tasks whose priority letter is `prio` in upper case.
    pub fn by_prio(&self, prio: &str) -> (r: TaskList)
        ensures
            r@ == select(self@, Filter::Priority, upper_of(prio@)),
    {
        self.filtered(Filter::Priority, prio)
    }

    /// The tasks with a context tag that holds `context`, both in lower case.
    pub fn by_context(&self, context: &str) -> (r: TaskList)
        ensures
            r@ == select(self@, Filter::Context, lower_of(context@)),
    {
        self.filtered(Filter::Context, context)
    }

    /// The tasks with a project tag that holds `project`, both in lower case.
    pub fn by_project(&self, project: &str) -> (r: TaskList)
        ensures
            r@ == select(self@, Filter::Project, lower_of(project@)),
    {
        self.filtered(Filter::Project, project)
    }

    /// The tasks with a special key that holds `special`, both in lower case.
    pub fn by_special(&self, special: &str) -> (r: TaskList)
        ensures
            r@ == select(self@, Filter::Special, lower_of(special@)),
    {
        self.filtered(Filter::Special, special)
    }
}

/// Two sequences of tasks are equal when they hold equal lines, place by place.
pub open spec fn same_lines(a: Seq<TaskView>, b: Seq<TaskView>) -> bool {
    a.len() == b.len() && forall|i: int| 0 <= i < a.len() ==> a[i].original == b[i].original
}

impl PartialEq for TaskList {
    fn eq(&self, other: &TaskList) -> (r: bool) {
        if self.tasks.len() != other.tasks.len() {
            return false;
        }
        let mut i: usize = 0;
        while i < self.tasks.len()
            invariant
                self.tasks@.len() == other.tasks@.len(),
                i <= self.tasks@.len(),
                forall|k: int| 0 <= k < i ==> self@[k].original == other@[k].original,
            decreases self.tasks.len() - i,
        {
            assert(self@[i as int] == self.tasks@[i as int]@);
            assert(other@[i as int] == other.tasks@[i as int]@);
            if self.tasks[i] != other.tasks[i] {
                return false;
            }
            i = i + 1;
        }
        true
    }
}

impl vstd::std_specs::cmp::PartialEqSpecImpl for TaskList {
    open spec fn obeys_eq_spec() -> bool {
        true
    }

    open spec fn eq_spec(&self, other: &TaskList) -> bool {
        same_lines(self@, other@)
    }
}

} // verus!
