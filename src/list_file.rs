use vstd::prelude::*;

use crate::list::{ids_ascending, list_of, tasks_by_ids, List, ListView};
use crate::task::{parse_line, task_views, Task, TaskView};
use crate::text::{chars_of, is_blank, push_char, string_of, white_space};

verus! {

/// A line without the carriage return that ended it, if it had one.
pub open spec fn strip_cr(l: Seq<char>) -> Seq<char> {
    if l.len() > 0 && l.last() == '\r' {
        l.drop_last()
    } else {
        l
    }
}

/// The pieces of `s` between line feeds, each without a carriage return
/// before its line feed.
pub open spec fn split_lines(s: Seq<char>) -> Seq<Seq<char>>
    decreases s.len(),
{
    if s.len() == 0 {
        seq![Seq::empty()]
    } else {
        let p = split_lines(s.drop_last());
        if s.last() == '\n' {
            p.update(p.len() - 1, strip_cr(p.last())).push(Seq::empty())
        } else {
            p.update(p.len() - 1, p.last().push(s.last()))
        }
    }
}

/// Whether line `l` holds nothing but white space.
pub open spec fn is_blank_line(l: Seq<char>) -> bool {
    forall|k: int| 0 <= k < l.len() ==> white_space(#[trigger] l[k])
}

/// The tasks of lines `ls`, each under its line number; blank lines give
/// none.
pub open spec fn tasks_of_lines(ls: Seq<Seq<char>>) -> Seq<TaskView>
    decreases ls.len(),
{
    if ls.len() == 0 {
        Seq::empty()
    } else if is_blank_line(ls.last()) {
        tasks_of_lines(ls.drop_last())
    } else {
        tasks_of_lines(ls.drop_last()).push(parse_line(ls.last(), (ls.len() - 1) as usize))
    }
}

/// The text of a list file holding tasks `ts`: each line, ended by a line feed.
pub open spec fn lines_text(ts: Seq<TaskView>) -> Seq<char>
    decreases ts.len(),
{
    if ts.len() == 0 {
        Seq::empty()
    } else {
        lines_text(ts.drop_last()) + ts.last().original + seq!['\n']
    }
}

/// The text that a list is kept as: its open tasks, then its done tasks, in
/// the order of their buckets.
pub open spec fn list_text(v: ListView) -> Seq<char> {
    lines_text(tasks_by_ids(v.tasks, v.open)) + lines_text(tasks_by_ids(v.tasks, v.done))
}

/// Text without white space at either end.
pub open spec fn trimmed(s: Seq<char>) -> Seq<char> {
    if trim_end_index(s) <= trim_start_index(s) {
        Seq::empty()
    } else {
        s.subrange(trim_start_index(s), trim_end_index(s))
    }
}

/// The index of the first character that is not white space, or the length.
pub open spec fn trim_start_index(s: Seq<char>) -> int
    decreases s.len(),
{
    if s.len() == 0 {
        0
    } else if white_space(s[0]) {
        1 + trim_start_index(s.subrange(1, s.len() as int))
    } else {
        0
    }
}

/// One past the last character that is not white space, or zero.
pub open spec fn trim_end_index(s: Seq<char>) -> int
    decreases s.len(),
{
    if s.len() == 0 {
        0
    } else if white_space(s.last()) {
        trim_end_index(s.drop_last())
    } else {
        s.len() as int
    }
}

/// The text of `s` without white space at either end.
fn trim_text(s: &str) -> (r: String)
    ensures
        r@ == trimmed(s@),
{
    let cs = chars_of(s);
    let n = cs.len();
    assert(s@.subrange(0, n as int) == s@);
    let mut start: usize = 0;
    while start < n && is_blank(cs[start])
        invariant
            n == cs@.len(),
            cs@ == s@,
            start <= n,
            trim_start_index(s@) == start + trim_start_index(s@.subrange(start as int, n as int)),
        decreases n - start,
    {
        let ghost rest = s@.subrange(start as int, n as int);
        assert(rest.subrange(1, rest.len() as int) == s@.subrange(start + 1, n as int));
        start = start + 1;
    }
    let mut end: usize = n;
    while end > 0 && is_blank(cs[end - 1])
        invariant
            n == cs@.len(),
            cs@ == s@,
            end <= n,
            trim_end_index(s@) == trim_end_index(s@.subrange(0, end as int)),
        decreases end,
    {
        assert(s@.subrange(0, end as int).drop_last() == s@.subrange(0, end - 1));
        end = end - 1;
    }
    if end <= start {
        String::new()
    } else {
        string_of(&cs, start, end)
    }
}

/// Appends each task's line and a line feed to `out`.
fn push_lines(out: &mut String, ts: &Vec<Task>)
    ensures
        final(out)@ == old(out)@ + lines_text(task_views(ts@)),
{
    let ghost tv = task_views(ts@);
    let mut i: usize = 0;
    while i < ts.len()
        invariant
            tv == task_views(ts@),
            i <= ts@.len(),
            out@ == old(out)@ + lines_text(tv.subrange(0, i as int)),
        decreases ts.len() - i,
    {
        let ghost next = tv.subrange(0, i + 1);
        assert(next.drop_last() == tv.subrange(0, i as int));
        assert(next.last() == ts@[i as int]@);
        out.append(ts[i].original().as_str());
        push_char(out, '\n');
        i = i + 1;
    }
    assert(tv.subrange(0, i as int) == tv);
}

/// The text that `list` is kept as: the lines of its open tasks, then those
/// of its done tasks, each ended by a line feed.
pub fn serialise_list(list: &List) -> (r: String)
    requires
        list@.wf(),
    ensures
        r@ == list_text(list@),
{
    let mut out = String::new();
    let open = list.open();
    let done = list.done();
    push_lines(&mut out, &open);
    push_lines(&mut out, &done);
    out
}

/// A list kept at `path` with the tasks of the lines of `contents`: each
/// line that is not blank gives a task whose identity is its line number.
pub fn deserialise_list(path: &str, contents: &str) -> (r: List)
    ensures
        r@ == list_of(path@, tasks_of_lines(split_lines(contents@))),
        r@.wf(),
{
    let cs = chars_of(contents);
    let n = cs.len();
    let mut tasks: Vec<Task> = Vec::new();
    let ghost mut pieces: Seq<Seq<char>> = Seq::empty();
    let mut start: usize = 0;
    let mut line: usize = 0;
    let mut i: usize = 0;
    assert(cs@.subrange(0, 0) =~= Seq::<char>::empty());
    assert(split_lines(cs@.subrange(0, 0)) =~= pieces.push(cs@.subrange(0, 0)));
    while i < n
        invariant
            n == cs@.len(),
            start <= i <= n,
            line == pieces.len(),
            line <= i,
            split_lines(cs@.subrange(0, i as int)) == pieces.push(cs@.subrange(start as int, i as int)),
            task_views(tasks@) == tasks_of_lines(pieces),
            forall|k: int| 0 <= k < tasks@.len() ==> (#[trigger] tasks@[k])@.id < line,
            ids_ascending(task_views(tasks@)),
        decreases n - i,
    {
        let ghost prefix = cs@.subrange(0, i + 1);
        assert(prefix.drop_last() == cs@.subrange(0, i as int));
        if cs[i] == '\n' {
            let end = if i > start && cs[i - 1] == '\r' {
                i - 1
            } else {
                i
            };
            let ghost piece = cs@.subrange(start as int, end as int);
            assert(piece == strip_cr(cs@.subrange(start as int, i as int)));
            if !blank_range(&cs, start, end) {
                let text = string_of(&cs, start, end);
                let t = Task::new(text.as_str(), line);
                let ghost before = tasks@;
                tasks.push(t);
                assert(task_views(tasks@) =~= task_views(before).push(t@));
                assert(task_views(tasks@) == tasks_of_lines(pieces.push(piece))) by {
                    assert(pieces.push(piece).drop_last() == pieces);
                }
            } else {
                assert(pieces.push(piece).drop_last() == pieces);
            }
            proof {
                pieces = pieces.push(piece);
            }
            line = line + 1;
            start = i + 1;
            assert(cs@.subrange(start as int, i + 1) =~= Seq::<char>::empty());
        } else {
            assert(cs@.subrange(start as int, i + 1) == cs@.subrange(start as int, i as int).push(
                cs@[i as int],
            ));
        }
        i = i + 1;
    }
    assert(cs@.subrange(0, n as int) == cs@);
    let ghost piece = cs@.subrange(start as int, n as int);
    if !blank_range(&cs, start, n) {
        let text = string_of(&cs, start, n);
        let t = Task::new(text.as_str(), line);
        let ghost before = tasks@;
        tasks.push(t);
        assert(task_views(tasks@) =~= task_views(before).push(t@));
        assert(pieces.push(piece).drop_last() == pieces);
    } else {
        assert(pieces.push(piece).drop_last() == pieces);
    }
    List::from_tasks(path.to_owned(), tasks)
}

/// Whether `cs[from..to]` is all white space.
fn blank_range(cs: &Vec<char>, from: usize, to: usize) -> (r: bool)
    requires
        from <= to <= cs@.len(),
    ensures
        r == is_blank_line(cs@.subrange(from as int, to as int)),
{
    let ghost l = cs@.subrange(from as int, to as int);
    let mut i = from;
    while i < to
        invariant
            from <= i <= to <= cs@.len(),
            l == cs@.subrange(from as int, to as int),
            forall|k: int| 0 <= k < i - from ==> white_space(#[trigger] l[k]),
        decreases to - i,
    {
        if !is_blank(cs[i]) {
            assert(l[i - from] == cs@[i as int]);
            return false;
        }
        assert(l[i - from] == cs@[i as int]);
        i = i + 1;
    }
    true
}

impl List {
    /// The list kept at `path` with the tasks of `contents`, once white space
    /// at either end of `contents` is trimmed.
    pub fn load(path: &str, contents: &str) -> (r: List)
        ensures
            r@ == list_of(path@, tasks_of_lines(split_lines(trimmed(contents@)))),
            r@.wf(),
    {
        let text = trim_text(contents);
        deserialise_list(path, text.as_str())
    }
}

} // verus!
