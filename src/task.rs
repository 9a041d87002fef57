use vstd::prelude::*;

use crate::date::{date_of_chars, date_text, parse_date, unset_date, Date};
use crate::error::AnansiError;
use crate::text::{
    char_vecs_view, chars_of, join_words, push_char, push_word, split_words, string_of,
    strings_view, words,
};

verus! {

/// What a task holds, as mathematical values.
pub struct TaskView {
    pub id: usize,
    pub done: bool,
    pub priority: Option<char>,
    pub completion_date: Date,
    pub inception_date: Date,
    /// The words after the head of the line, tags included.
    pub text: Seq<char>,
    /// The plain words after the head of the line, without tags.
    pub description: Seq<char>,
    pub contexts: Seq<Seq<char>>,
    pub projects: Seq<Seq<char>>,
    /// Key and value of each special tag, one entry per key, in the order in
    /// which the keys first appear.
    pub specials: Seq<(Seq<char>, Seq<char>)>,
    /// The line the task was read from, or the line that a state change wrote.
    pub original: Seq<char>,
}

// ---------------------------------------------------------------------------
// The line grammar
// ---------------------------------------------------------------------------
/// The priority that a `(X)` marker gives, for an upper-case letter `X`.
pub open spec fn priority_marker(w: Seq<char>) -> Option<char> {
    if w.len() == 3 && w[0] == '(' && w[2] == ')' && 'A' <= w[1] && w[1] <= 'Z' {
        Some(w[1])
    } else {
        None
    }
}

/// The head of a line: the done marker, the priority and the two dates, and
/// the index of the first word of the body.
pub struct Head {
    pub done: bool,
    pub priority: Option<char>,
    pub completion_date: Date,
    pub inception_date: Date,
    pub body_start: int,
}

/// Reads the head from the words of a line: a first word `x` marks the task
/// done; then a `(X)` marker gives the priority (a bare `()` is dropped);
/// then up to two date words follow. A lone date is the inception date.
pub open spec fn parse_head(ws: Seq<Seq<char>>) -> Head {
    let done = ws.len() > 0 && ws[0] == seq!['x'];
    let at_prio: int = if done { 1 } else { 0 };
    let priority = if at_prio < ws.len() { priority_marker(ws[at_prio]) } else { None };
    let marker = at_prio < ws.len() && (priority is Some || ws[at_prio] == seq!['(', ')']);
    let at_first: int = if marker { at_prio + 1 } else { at_prio };
    let first = if at_first < ws.len() { parse_date(ws[at_first]) } else { unset_date() };
    let at_second: int = if first.year != 0 { at_first + 1 } else { at_first };
    let second = if at_second < ws.len() { parse_date(ws[at_second]) } else { unset_date() };
    let at_body: int = if second.year != 0 { at_second + 1 } else { at_second };
    let demote = first.year != 0 && second.year == 0;
    Head {
        done,
        priority,
        completion_date: if demote { unset_date() } else { first },
        inception_date: if demote { first } else { second },
        body_start: at_body,
    }
}

pub open spec fn is_context_word(w: Seq<char>) -> bool {
    w.len() > 1 && w[0] == '@'
}

pub open spec fn is_project_word(w: Seq<char>) -> bool {
    w.len() > 1 && w[0] == '+'
}

pub open spec fn is_first_colon(w: Seq<char>, k: int) -> bool {
    &&& 0 <= k < w.len()
    &&& w[k] == ':'
    &&& forall|j: int| 0 <= j < k ==> w[j] != ':'
}

pub open spec fn has_colon(w: Seq<char>) -> bool {
    exists|k: int| 0 <= k < w.len() && w[k] == ':'
}

pub open spec fn has_double_colon(w: Seq<char>) -> bool {
    exists|k: int| 0 <= k && k + 1 < w.len() && #[trigger] w[k] == ':' && w[k + 1] == ':'
}

/// A `key:value` word: it holds a colon, but not two in a row, and neither
/// starts nor ends with one.
pub open spec fn is_special_word(w: Seq<char>) -> bool {
    &&& !is_context_word(w)
    &&& !is_project_word(w)
    &&& w.len() > 2
    &&& w[0] != ':'
    &&& w.last() != ':'
    &&& has_colon(w)
    &&& !has_double_colon(w)
}

pub open spec fn first_colon(w: Seq<char>) -> int {
    choose|k: int| is_first_colon(w, k)
}

pub open spec fn special_key(w: Seq<char>) -> Seq<char> {
    w.subrange(0, first_colon(w))
}

pub open spec fn special_value(w: Seq<char>) -> Seq<char> {
    w.subrange(first_colon(w) + 1, w.len() as int)
}

pub open spec fn is_plain_word(w: Seq<char>) -> bool {
    !is_context_word(w) && !is_project_word(w) && !is_special_word(w)
}

pub open spec fn contexts_of(ws: Seq<Seq<char>>) -> Seq<Seq<char>>
    decreases ws.len(),
{
    if ws.len() == 0 {
        Seq::empty()
    } else if is_context_word(ws.last()) {
        contexts_of(ws.drop_last()).push(ws.last().subrange(1, ws.last().len() as int))
    } else {
        contexts_of(ws.drop_last())
    }
}

pub open spec fn projects_of(ws: Seq<Seq<char>>) -> Seq<Seq<char>>
    decreases ws.len(),
{
    if ws.len() == 0 {
        Seq::empty()
    } else if is_project_word(ws.last()) {
        projects_of(ws.drop_last()).push(ws.last().subrange(1, ws.last().len() as int))
    } else {
        projects_of(ws.drop_last())
    }
}

pub open spec fn plain_words(ws: Seq<Seq<char>>) -> Seq<Seq<char>>
    decreases ws.len(),
{
    if ws.len() == 0 {
        Seq::empty()
    } else if is_plain_word(ws.last()) {
        plain_words(ws.drop_last()).push(ws.last())
    } else {
        plain_words(ws.drop_last())
    }
}

/// The index of the entry with key `k`, or -1.
pub open spec fn key_index(r: Seq<(Seq<char>, Seq<char>)>, k: Seq<char>) -> int
    decreases r.len(),
{
    if r.len() == 0 {
        -1
    } else if key_index(r.drop_last(), k) >= 0 {
        key_index(r.drop_last(), k)
    } else if r.last().0 == k {
        r.len() - 1
    } else {
        -1
    }
}

/// Sets the value of key `k`, in place when the key is there already.
pub open spec fn upsert(r: Seq<(Seq<char>, Seq<char>)>, k: Seq<char>, v: Seq<char>) -> Seq<
    (Seq<char>, Seq<char>),
> {
    if key_index(r, k) >= 0 {
        r.update(key_index(r, k), (k, v))
    } else {
        r.push((k, v))
    }
}

pub open spec fn specials_of(ws: Seq<Seq<char>>) -> Seq<(Seq<char>, Seq<char>)>
    decreases ws.len(),
{
    if ws.len() == 0 {
        Seq::empty()
    } else if is_special_word(ws.last()) {
        upsert(specials_of(ws.drop_last()), special_key(ws.last()), special_value(ws.last()))
    } else {
        specials_of(ws.drop_last())
    }
}

/// The task that line `s` describes, under identity `id`.
pub open spec fn parse_line(s: Seq<char>, id: usize) -> TaskView {
    task_of_words(words(s), s, id)
}

/// The task that the words `ws` of line `s` describe, under identity `id`.
pub open spec fn task_of_words(ws: Seq<Seq<char>>, s: Seq<char>, id: usize) -> TaskView {
    let h = parse_head(ws);
    let body = ws.subrange(h.body_start, ws.len() as int);
    TaskView {
        id,
        done: h.done,
        priority: h.priority,
        completion_date: h.completion_date,
        inception_date: h.inception_date,
        text: join_words(body),
        description: join_words(plain_words(body)),
        contexts: contexts_of(body),
        projects: projects_of(body),
        specials: specials_of(body),
        original: s,
    }
}

/// The text of a priority: the letter, or nothing.
pub open spec fn priority_text(p: Option<char>) -> Seq<char> {
    match p {
        Some(c) => seq![c],
        None => Seq::empty(),
    }
}

/// The words of the line that a state change writes: the done marker, the
/// priority marker, the dates that are set, and the text. A task without
/// priority gets no marker at all, rather than an empty `()`.
pub open spec fn line_words(
    done: bool,
    priority: Option<char>,
    completion: Date,
    inception: Date,
    text: Seq<char>,
) -> Seq<Seq<char>> {
    let marker = if done { seq![seq!['x']] } else { Seq::empty() };
    let prio = match priority {
        Some(c) => seq![seq!['(', c, ')']],
        None => Seq::empty(),
    };
    let first = if completion.year != 0 { seq![date_text(completion)] } else { Seq::empty() };
    let second = if inception.year != 0 { seq![date_text(inception)] } else { Seq::empty() };
    let rest = if text.len() > 0 { seq![text] } else { Seq::empty() };
    marker + prio + first + second + rest
}

/// The line of the given parts: its words joined by single spaces.
pub open spec fn line_of(
    done: bool,
    priority: Option<char>,
    completion: Date,
    inception: Date,
    text: Seq<char>,
) -> Seq<char> {
    join_words(line_words(done, priority, completion, inception, text))
}

/// Marking a task done. A done task stays as it is. An open task with an
/// inception date needs a set completion date, which it takes; one without
/// takes none. The line is written anew.
pub open spec fn mark_done(t: TaskView, completion: Option<Date>) -> Result<TaskView, AnansiError> {
    if t.done {
        Ok(t)
    } else if t.inception_date.year != 0 {
        match completion {
            Some(c) if c.year != 0 => Ok(
                TaskView {
                    done: true,
                    completion_date: c,
                    original: line_of(true, t.priority, c, t.inception_date, t.text),
                    ..t
                },
            ),
            _ => Err(AnansiError::InvalidTransition),
        }
    } else {
        Ok(
            TaskView {
                done: true,
                original: line_of(true, t.priority, t.completion_date, t.inception_date, t.text),
                ..t
            },
        )
    }
}

/// Marking a task open again. An open task stays as it is; a done one loses
/// its completion date and its line is written anew.
pub open spec fn mark_undone(t: TaskView) -> TaskView {
    if !t.done {
        t
    } else {
        TaskView {
            done: false,
            completion_date: unset_date(),
            original: line_of(false, t.priority, unset_date(), t.inception_date, t.text),
            ..t
        }
    }
}

/// What every task read from a line satisfies: a completion date only
/// beside an inception date, and a priority that is an upper-case letter.
pub open spec fn task_invariant(t: TaskView) -> bool {
    &&& t.completion_date.year != 0 ==> t.inception_date.year != 0
    &&& t.priority matches Some(c) ==> 'A' <= c && c <= 'Z'
}

/// Every line reads as a task that satisfies the task invariant.
pub proof fn lemma_parse_line_invariant(s: Seq<char>, id: usize)
    ensures
        task_invariant(parse_line(s, id)),
{
}

/// Marking a task done or open keeps the task invariant.
pub proof fn lemma_marks_keep_invariant(t: TaskView, completion: Option<Date>)
    requires
        task_invariant(t),
    ensures
        mark_done(t, completion) matches Ok(u) ==> task_invariant(u),
        task_invariant(mark_undone(t)),
{
}

/// Reading the line of any task again gives a task with that same line.
pub proof fn lemma_original_round_trip(t: TaskView, id: usize)
    ensures
        parse_line(t.original, id).original == t.original,
{
}

/// Marking a task done a second time changes nothing, whatever date comes
/// with the second call.
pub proof fn lemma_mark_done_idempotent(t: TaskView, first: Option<Date>, second: Option<Date>)
    requires
        mark_done(t, first) is Ok,
    ensures
        mark_done(mark_done(t, first)->Ok_0, second) == mark_done(t, first),
{
}

/// Marking a task open a second time changes nothing.
pub proof fn lemma_mark_undone_idempotent(t: TaskView)
    ensures
        mark_undone(mark_undone(t)) == mark_undone(t),
{
}

/// Where a priority stands: the earlier in the alphabet, the lower the rank;
/// no priority ranks after every letter.
pub open spec fn priority_rank(p: Option<char>) -> int {
    match p {
        Some(c) => c as u32 as int,
        None => 0x11_0000,
    }
}

/// The views of a sequence of tasks.
pub open spec fn task_views(v: Seq<Task>) -> Seq<TaskView> {
    v.map_values(|t: Task| t@)
}

pub open spec fn pairs_view(v: Seq<(String, String)>) -> Seq<(Seq<char>, Seq<char>)> {
    v.map_values(|p: (String, String)| (p.0@, p.1@))
}

// ---------------------------------------------------------------------------
// Task
// ---------------------------------------------------------------------------
/// One task: one line of a todo list.
///
/// Two tasks are equal when their lines are equal. They are ordered by
/// priority alone, a higher priority being greater: `A` is the greatest, `Z`
/// the least of the letters, and a task without priority is less than any
/// task with one. The order therefore calls tasks with different lines but
/// the same priority neither less nor greater, while `==` calls them unequal.
#[derive(Debug)]
pub struct Task {
    id: usize,
    done: bool,
    priority: Option<char>,
    completion_date: Date,
    inception_date: Date,
    text: String,
    description: String,
    context_tags: Vec<String>,
    project_tags: Vec<String>,
    special_tags: Vec<(String, String)>,
    original_text: String,
}

impl View for Task {
    type V = TaskView;

    closed spec fn view(&self) -> TaskView {
        TaskView {
            id: self.id,
            done: self.done,
            priority: self.priority,
            completion_date: self.completion_date,
            inception_date: self.inception_date,
            text: self.text@,
            description: self.description@,
            contexts: strings_view(self.context_tags@),
            projects: strings_view(self.project_tags@),
            specials: pairs_view(self.special_tags@),
            original: self.original_text@,
        }
    }
}

/// The priority marker at the start of a word, if it is one.
fn read_priority(w: &Vec<char>) -> (r: Option<char>)
    ensures
        r == priority_marker(w@),
{
    if w.len() == 3 && w[0] == '(' && w[2] == ')' && 'A' <= w[1] && w[1] <= 'Z' {
        Some(w[1])
    } else {
        None
    }
}

/// Whether `w` is exactly the characters `a` then `b`.
fn is_pair(w: &Vec<char>, a: char, b: char) -> (r: bool)
    ensures
        r == (w@ == seq![a, b]),
{
    if w.len() == 2 && w[0] == a && w[1] == b {
        assert(w@ == seq![a, b]);
        true
    } else {
        false
    }
}

proof fn lemma_first_colon(w: Seq<char>, k: int)
    requires
        is_first_colon(w, k),
    ensures
        first_colon(w) == k,
{
    let c = first_colon(w);
    assert(is_first_colon(w, c));
    if c < k {
        assert(w[c] != ':');
    } else if c > k {
        assert(w[k] != ':');
    }
}

/// Where a `key:value` word splits, if `w` is one.
fn special_split(w: &Vec<char>) -> (r: Option<usize>)
    ensures
        r is Some <==> is_special_word(w@),
        r matches Some(k) ==> k == first_colon(w@) && is_first_colon(w@, k as int),
{
    let n = w.len();
    if n <= 2 || w[0] == '@' || w[0] == '+' || w[0] == ':' || w[n - 1] == ':' {
        return None;
    }
    let mut first: Option<usize> = None;
    let mut double = false;
    let mut i: usize = 0;
    while i < n
        invariant
            n == w@.len(),
            i <= n,
            first is None <==> (forall|j: int| 0 <= j < i ==> w@[j] != ':'),
            first matches Some(k) ==> is_first_colon(w@, k as int) && k < i,
            double <==> (exists|j: int| 0 <= j && j + 1 < i && #[trigger] w@[j] == ':' && w@[j + 1] == ':'),
        decreases n - i,
    {
        if w[i] == ':' {
            if first.is_none() {
                first = Some(i);
            }
            if i > 0 && w[i - 1] == ':' {
                double = true;
                assert(w@[i - 1] == ':' && w@[(i - 1) + 1] == ':');
            }
        }
        proof {
            if !double && (exists|j: int|
                0 <= j && j + 1 < i + 1 && #[trigger] w@[j] == ':' && w@[j + 1] == ':') {
                let j = choose|j: int|
                    0 <= j && j + 1 < i + 1 && #[trigger] w@[j] == ':' && w@[j + 1] == ':';
                assert(j + 1 == i);
            }
        }
        i = i + 1;
    }
    match first {
        Some(k) => {
            proof {
                lemma_first_colon(w@, k as int);
            }
            if double {
                None
            } else {
                Some(k)
            }
        },
        None => None,
    }
}

/// A key found in the entries up to `j` is the key's index in all of them.
proof fn lemma_key_index_prefix(r: Seq<(Seq<char>, Seq<char>)>, k: Seq<char>, j: int)
    requires
        0 <= j <= r.len(),
        key_index(r.subrange(0, j), k) >= 0,
    ensures
        key_index(r, k) == key_index(r.subrange(0, j), k),
    decreases r.len(),
{
    if j == r.len() {
        assert(r.subrange(0, j) == r);
    } else {
        assert(r.drop_last().subrange(0, j) == r.subrange(0, j));
        lemma_key_index_prefix(r.drop_last(), k, j);
    }
}

/// Sets `key` to `value` among the special tags.
fn upsert_special(specials: &mut Vec<(String, String)>, key: String, value: String)
    ensures
        pairs_view(final(specials)@) == upsert(pairs_view(old(specials)@), key@, value@),
{
    let ghost r = pairs_view(specials@);
    let mut i: usize = 0;
    while i < specials.len()
        invariant
            r == pairs_view(specials@),
            specials@ == old(specials)@,
            i <= specials@.len(),
            key_index(r.subrange(0, i as int), key@) == -1,
        decreases specials.len() - i,
    {
        if specials[i].0 == key {
            proof {
                let q = r.subrange(0, i + 1);
                assert(q.drop_last() == r.subrange(0, i as int));
                assert(key_index(q, key@) == i);
                lemma_key_index_prefix(r, key@, i + 1);
            }
            specials.set(i, (key, value));
            assert(pairs_view(specials@) == r.update(i as int, (key@, value@)));
            return;
        }
        proof {
            let q = r.subrange(0, i + 1);
            assert(q.drop_last() == r.subrange(0, i as int));
        }
        i = i + 1;
    }
    assert(r.subrange(0, i as int) == r);
    specials.push((key, value));
    assert(pairs_view(specials@) == r.push((key@, value@)));
}

/// Reads one line into a task with identity `id`.
pub fn deserialize_task(input: &str, id: usize) -> (r: Task)
    ensures
        r@ == parse_line(input@, id),
{
    let cs = chars_of(input);
    let ws = split_words(&cs);
    task_from_words(&ws, input, id)
}

/// The task that the words `ws` of line `line` describe, under identity `id`.
pub fn task_from_words(ws: &Vec<Vec<char>>, line: &str, id: usize) -> (r: Task)
    ensures
        r@ == task_of_words(char_vecs_view(ws@), line@, id),
{
    let ghost wv = char_vecs_view(ws@);
    let n = ws.len();
    assert(wv.len() == n);
    let mut pos: usize = 0;
    let done = n > 0 && ws[0].len() == 1 && ws[0][0] == 'x';
    if n > 0 {
        assert(wv[0] == ws@[0]@);
        if done {
            assert(wv[0] == seq!['x']);
        }
    }
    if done {
        pos = 1;
    }
    let mut priority: Option<char> = None;
    if pos < n {
        assert(wv[pos as int] == ws@[pos as int]@);
        priority = read_priority(&ws[pos]);
        if priority.is_some() || is_pair(&ws[pos], '(', ')') {
            pos = pos + 1;
        }
    }
    let mut completion_date = Date { year: 0, month: 0, day: 0 };
    if pos < n {
        assert(wv[pos as int] == ws@[pos as int]@);
        completion_date = date_of_chars(&ws[pos]);
        if completion_date.year != 0 {
            pos = pos + 1;
        }
    }
    let mut inception_date = Date { year: 0, month: 0, day: 0 };
    if pos < n {
        assert(wv[pos as int] == ws@[pos as int]@);
        inception_date = date_of_chars(&ws[pos]);
        if inception_date.year != 0 {
            pos = pos + 1;
        }
    }
    if completion_date.year != 0 && inception_date.year == 0 {
        inception_date = completion_date;
        completion_date = Date { year: 0, month: 0, day: 0 };
    }
    let ghost head = parse_head(wv);
    assert(head.body_start == pos);
    assert(head.done == done);
    assert(head.priority == priority);
    assert(head.completion_date == completion_date);
    assert(head.inception_date == inception_date);

    let ghost start = pos as int;
    let mut text = String::new();
    let mut description = String::new();
    let mut context_tags: Vec<String> = Vec::new();
    let mut project_tags: Vec<String> = Vec::new();
    let mut special_tags: Vec<(String, String)> = Vec::new();
    let mut described = false;
    let mut i = pos;
    while i < n
        invariant
            n == ws@.len(),
            wv == char_vecs_view(ws@),
            wv.len() == n,
            start == pos,
            described == (plain_words(wv.subrange(start, i as int)).len() > 0),
            0 <= start <= i <= n,
            text@ == join_words(wv.subrange(start, i as int)),
            description@ == join_words(plain_words(wv.subrange(start, i as int))),
            strings_view(context_tags@) == contexts_of(wv.subrange(start, i as int)),
            strings_view(project_tags@) == projects_of(wv.subrange(start, i as int)),
            pairs_view(special_tags@) == specials_of(wv.subrange(start, i as int)),
        decreases n - i,
    {
        let w = &ws[i];
        let ghost done_part = wv.subrange(start, i as int);
        let ghost next_part = wv.subrange(start, i + 1);
        assert(wv[i as int] == w@);
        assert(next_part.drop_last() == done_part);
        assert(next_part.last() == w@);
        assert(next_part == done_part.push(w@));
        let word = string_of(w, 0, w.len());
        assert(w@.subrange(0, w@.len() as int) == w@);
        push_word(&mut text, word.as_str(), Ghost(done_part), i == pos);
        if w.len() > 1 && w[0] == '@' {
            let tag = string_of(w, 1, w.len());
            context_tags.push(tag);
            assert(strings_view(context_tags@) == contexts_of(done_part).push(tag@));
        } else if w.len() > 1 && w[0] == '+' {
            let tag = string_of(w, 1, w.len());
            project_tags.push(tag);
            assert(strings_view(project_tags@) == projects_of(done_part).push(tag@));
        } else {
            match special_split(w) {
                Some(k) => {
                    let key = string_of(w, 0, k);
                    let value = string_of(w, k + 1, w.len());
                    upsert_special(&mut special_tags, key, value);
                },
                None => {
                    push_word(
                        &mut description,
                        word.as_str(),
                        Ghost(plain_words(done_part)),
                        !described,
                    );
                    described = true;
                },
            }
        }
        i = i + 1;
    }
    let original_text = line.to_owned();
    Task {
        id,
        done,
        priority,
        completion_date,
        inception_date,
        text,
        description,
        context_tags,
        project_tags,
        special_tags,
        original_text,
    }
}

/// Writes the line for the given parts.
fn write_line(
    done: bool,
    priority: Option<char>,
    completion: Date,
    inception: Date,
    text: &String,
) -> (r: String)
    ensures
        r@ == line_of(done, priority, completion, inception, text@),
{
    let mut line = String::new();
    let mut first = true;
    let ghost mut ws: Seq<Seq<char>> = Seq::empty();
    if done {
        let mut m = String::new();
        push_char(&mut m, 'x');
        assert(m@ == seq!['x']);
        push_word(&mut line, m.as_str(), Ghost(ws), first);
        first = false;
        proof {
            ws = ws.push(m@);
        }
    }
    let ghost ws1 = ws;
    if let Some(c) = priority {
        let mut m = String::new();
        push_char(&mut m, '(');
        push_char(&mut m, c);
        push_char(&mut m, ')');
        assert(m@ == seq!['(', c, ')']);
        push_word(&mut line, m.as_str(), Ghost(ws), first);
        first = false;
        proof {
            ws = ws.push(m@);
        }
    }
    let ghost ws2 = ws;
    if completion.year != 0 {
        let d = completion.format_date();
        push_word(&mut line, d.as_str(), Ghost(ws), first);
        first = false;
        proof {
            ws = ws.push(d@);
        }
    }
    let ghost ws3 = ws;
    if inception.year != 0 {
        let d = inception.format_date();
        push_word(&mut line, d.as_str(), Ghost(ws), first);
        first = false;
        proof {
            ws = ws.push(d@);
        }
    }
    let ghost ws4 = ws;
    if !text.as_str().is_empty() {
        push_word(&mut line, text.as_str(), Ghost(ws), first);
        first = false;
        proof {
            ws = ws.push(text@);
        }
    }
    assert(ws1 == (if done { seq![seq!['x']] } else { Seq::<Seq<char>>::empty() }));
    assert(ws2 == ws1 + (match priority {
        Some(c) => seq![seq!['(', c, ')']],
        None => Seq::<Seq<char>>::empty(),
    }));
    assert(ws3 == ws2 + (if completion.year != 0 {
        seq![date_text(completion)]
    } else {
        Seq::<Seq<char>>::empty()
    }));
    assert(ws4 == ws3 + (if inception.year != 0 {
        seq![date_text(inception)]
    } else {
        Seq::<Seq<char>>::empty()
    }));
    assert(ws == ws4 + (if text@.len() > 0 { seq![text@] } else { Seq::<Seq<char>>::empty() }));
    assert(ws == line_words(done, priority, completion, inception, text@));
    line
}

/// A copy of a list of strings.
fn clone_strings(v: &Vec<String>) -> (r: Vec<String>)
    ensures
        strings_view(r@) == strings_view(v@),
{
    let mut r: Vec<String> = Vec::new();
    let mut i: usize = 0;
    while i < v.len()
        invariant
            i <= v@.len(),
            r@.len() == i,
            forall|j: int| 0 <= j < i ==> (#[trigger] r@[j])@ == v@[j]@,
        decreases v.len() - i,
    {
        let c = v[i].clone();
        r.push(c);
        i = i + 1;
    }
    assert(strings_view(r@) =~= strings_view(v@));
    r
}

/// A copy of a list of key-value pairs.
fn clone_pairs(v: &Vec<(String, String)>) -> (r: Vec<(String, String)>)
    ensures
        pairs_view(r@) == pairs_view(v@),
{
    let mut r: Vec<(String, String)> = Vec::new();
    let mut i: usize = 0;
    while i < v.len()
        invariant
            i <= v@.len(),
            r@.len() == i,
            forall|j: int|
                0 <= j < i ==> (#[trigger] r@[j]).0@ == v@[j].0@ && r@[j].1@ == v@[j].1@,
        decreases v.len() - i,
    {
        let k = v[i].0.clone();
        let x = v[i].1.clone();
        r.push((k, x));
        i = i + 1;
    }
    assert(pairs_view(r@) =~= pairs_view(v@));
    r
}

impl Clone for Task {
    fn clone(&self) -> (r: Task)
        ensures
            r@ == self@,
    {
        Task {
            id: self.id,
            done: self.done,
            priority: self.priority,
            completion_date: self.completion_date,
            inception_date: self.inception_date,
            text: self.text.clone(),
            description: self.description.clone(),
            context_tags: clone_strings(&self.context_tags),
            project_tags: clone_strings(&self.project_tags),
            special_tags: clone_pairs(&self.special_tags),
            original_text: self.original_text.clone(),
        }
    }
}

impl Task {
    /// Reads one line into a task with identity `id`.
    pub fn new(text: &str, id: usize) -> (r: Task)
        ensures
            r@ == parse_line(text@, id),
    {
        deserialize_task(text, id)
    }

    /// Whether the task is done.
    pub fn is_done(&self) -> (r: bool)
        ensures
            r == self@.done,
    {
        self.done
    }

    /// The identity of the task.
    pub fn id(&self) -> (r: usize)
        ensures
            r == self@.id,
    {
        self.id
    }

    /// The task marked done, with `completion_date` as its completion date
    /// where it has an inception date; the task itself if it is done already.
    pub fn done(&self, completion_date: Option<Date>) -> (r: Result<Task, AnansiError>)
        ensures
            match r {
                Ok(t) => mark_done(self@, completion_date) == Ok::<TaskView, AnansiError>(t@),
                Err(e) => mark_done(self@, completion_date) == Err::<TaskView, AnansiError>(e),
            },
    {
        let mut task = self.clone();
        if !task.done {
            if task.inception_date.year != 0 {
                match completion_date {
                    Some(date) => {
                        if date.year == 0 {
                            return Err(AnansiError::InvalidTransition);
                        }
                        task.original_text = write_line(
                            true,
                            task.priority,
                            date,
                            task.inception_date,
                            &task.text,
                        );
                        task.completion_date = date;
                    },
                    None => {
                        return Err(AnansiError::InvalidTransition);
                    },
                }
            } else {
                task.original_text = write_line(
                    true,
                    task.priority,
                    task.completion_date,
                    task.inception_date,
                    &task.text,
                );
            }
            task.done = true;
        }
        Ok(task)
    }

    /// The task marked open, without a completion date; the task itself if
    /// it is open already.
    pub fn undone(&self) -> (r: Task)
        ensures
            r@ == mark_undone(self@),
    {
        let mut task = self.clone();
        if task.done {
            let unset = Date { year: 0, month: 0, day: 0 };
            task.original_text = write_line(
                false,
                task.priority,
                unset,
                task.inception_date,
                &task.text,
            );
            task.completion_date = unset;
            task.done = false;
        }
        task
    }

    /// The priority letter, or the empty string.
    pub fn prio(&self) -> (r: String)
        ensures
            r@ == priority_text(self@.priority),
    {
        let mut r = String::new();
        if let Some(c) = self.priority {
            push_char(&mut r, c);
        }
        r
    }

    /// The context tags, without their `@`, in the order of the line.
    pub fn contexts(&self) -> (r: &Vec<String>)
        ensures
            strings_view(r@) == self@.contexts,
    {
        &self.context_tags
    }

    /// The project tags, without their `+`, in the order of the line.
    pub fn projects(&self) -> (r: &Vec<String>)
        ensures
            strings_view(r@) == self@.projects,
    {
        &self.project_tags
    }

    /// The special tags as key and value, one entry per key.
    pub fn specials(&self) -> (r: &Vec<(String, String)>)
        ensures
            pairs_view(r@) == self@.specials,
    {
        &self.special_tags
    }

    /// The completion date as text, empty when unset.
    pub fn completion_date(&self) -> (r: String)
        ensures
            r@ == date_text(self@.completion_date),
    {
        self.completion_date.format_date()
    }

    /// The inception date as text, empty when unset.
    pub fn inception_date(&self) -> (r: String)
        ensures
            r@ == date_text(self@.inception_date),
    {
        self.inception_date.format_date()
    }

    /// The words after the head of the line, tags included.
    pub fn text(&self) -> (r: &String)
        ensures
            r@ == self@.text,
    {
        &self.text
    }

    /// The plain words after the head of the line.
    pub fn description(&self) -> (r: &String)
        ensures
            r@ == self@.description,
    {
        &self.description
    }

    /// The line of the task.
    pub fn original(&self) -> (r: &String)
        ensures
            r@ == self@.original,
    {
        &self.original_text
    }

    /// The completion date.
    pub fn completion(&self) -> (r: Date)
        ensures
            r == self@.completion_date,
    {
        self.completion_date
    }

    /// The inception date.
    pub fn inception(&self) -> (r: Date)
        ensures
            r == self@.inception_date,
    {
        self.inception_date
    }

    /// Where the priority of the task ranks: see `priority_rank`.
    pub fn rank(&self) -> (r: u32)
        ensures
            r == priority_rank(self@.priority),
    {
        match self.priority {
            Some(c) => c as u32,
            None => 0x11_0000,
        }
    }
}

impl PartialEq for Task {
    fn eq(&self, other: &Task) -> (r: bool) {
        self.original_text == other.original_text
    }
}

impl vstd::std_specs::cmp::PartialEqSpecImpl for Task {
    open spec fn obeys_eq_spec() -> bool {
        true
    }

    open spec fn eq_spec(&self, other: &Task) -> bool {
        self@.original == other@.original
    }
}

/// The order of two tasks: the one with the lower priority rank is greater.
pub open spec fn priority_order(a: TaskView, b: TaskView) -> core::cmp::Ordering {
    if priority_rank(a.priority) < priority_rank(b.priority) {
        core::cmp::Ordering::Greater
    } else if priority_rank(a.priority) > priority_rank(b.priority) {
        core::cmp::Ordering::Less
    } else {
        core::cmp::Ordering::Equal
    }
}

impl PartialOrd for Task {
    fn partial_cmp(&self, other: &Task) -> (r: Option<core::cmp::Ordering>) {
        let a = self.rank();
        let b = other.rank();
        if a < b {
            Some(core::cmp::Ordering::Greater)
        } else if a > b {
            Some(core::cmp::Ordering::Less)
        } else {
            Some(core::cmp::Ordering::Equal)
        }
    }
}

impl vstd::std_specs::cmp::PartialOrdSpecImpl for Task {
    open spec fn obeys_partial_cmp_spec() -> bool {
        true
    }

    open spec fn partial_cmp_spec(&self, other: &Task) -> Option<core::cmp::Ordering> {
        Some(priority_order(self@, other@))
    }
}

} // verus!
