//! The operations of the task store on the contents of its file.
//!
//! The file holds one task per line. Each operation reads the whole contents
//! and, where it changes anything, gives back the whole new contents (or, to
//! create a task, the one line to add at the end). Lines that do not hold a
//! task are passed over when tasks are listed and are kept as they are when
//! the file is rewritten.

use vstd::prelude::*;
use crate::task::{encode, opt_view, parse_line, Status, Task, TaskView};
use crate::text::{chars_of, lemma_split_len, split, split_on, string_of, views};
use crate::validate::{clock_now, decode, result_view, validation, Instant, TaskError, ValidationError};

verus! {

/// The lines of a file's contents: the pieces between line breaks. Contents
/// that end with a line break end with an empty piece.
pub open spec fn lines(s: Seq<char>) -> Seq<Seq<char>> {
    split(s, '\n')
}

/// Lines joined by line breaks.
pub open spec fn unlines(ls: Seq<Seq<char>>) -> Seq<char>
    decreases ls.len(),
{
    if ls.len() == 0 {
        Seq::empty()
    } else if ls.len() == 1 {
        ls[0]
    } else {
        unlines(ls.drop_last()) + seq!['\n'] + ls.last()
    }
}

proof fn lemma_unlines_extend(ls: Seq<Seq<char>>, c: char)
    requires
        ls.len() >= 1,
    ensures
        unlines(ls.update(ls.len() - 1, ls.last().push(c))) == unlines(ls).push(c),
{
    let m = ls.update(ls.len() - 1, ls.last().push(c));
    if ls.len() > 1 {
        assert(m.drop_last() =~= ls.drop_last());
    }
    assert(unlines(m) =~= unlines(ls).push(c));
}

/// Joining the lines of contents by line breaks gives the contents back.
pub proof fn lemma_unlines_lines(s: Seq<char>)
    ensures
        unlines(lines(s)) == s,
    decreases s.len(),
{
    if s.len() == 0 {
        assert(unlines(lines(s)) =~= s);
    } else {
        let t = s.drop_last();
        lemma_unlines_lines(t);
        lemma_split_len(t, '\n');
        let p = lines(t);
        if s.last() == '\n' {
            assert(p.push(Seq::empty()).drop_last() =~= p);
            assert(unlines(lines(s)) =~= s);
        } else {
            lemma_unlines_extend(p, s.last());
            assert(unlines(lines(s)) =~= s);
        }
    }
}

/// The tasks that the lines hold as of `now`, in order. Lines that do not
/// decode are passed over.
pub open spec fn decoded_tasks(ls: Seq<Seq<char>>, now: Instant) -> Seq<TaskView>
    decreases ls.len(),
{
    if ls.len() == 0 {
        Seq::empty()
    } else {
        let before = decoded_tasks(ls.drop_last(), now);
        match decode(ls.last(), now) {
            Ok(t) => before.push(t),
            Err(_) => before,
        }
    }
}

/// The tasks that a file's contents hold as of `now`.
pub open spec fn file_tasks(s: Seq<char>, now: Instant) -> Seq<TaskView> {
    decoded_tasks(lines(s), now)
}

pub open spec fn task_views(v: Seq<Task>) -> Seq<TaskView> {
    v.map_values(|t: Task| t@)
}

/// Lists the tasks of the file as of the instant `now`.
pub fn read_tasks_at(contents: &str, now: Instant) -> (r: Vec<Task>)
    ensures
        task_views(r@) == file_tasks(contents@, now),
{
    let cs = chars_of(contents);
    let ls = split_on(&cs, '\n');
    let ghost all = views(ls@);
    let mut r: Vec<Task> = Vec::new();
    let mut i: usize = 0;
    assert(all.take(0) =~= Seq::<Seq<char>>::empty());
    assert(task_views(r@) =~= Seq::<TaskView>::empty());
    while i < ls.len()
        invariant
            i <= ls.len(),
            all == views(ls@),
            all == lines(contents@),
            task_views(r@) == decoded_tasks(all.take(i as int), now),
        decreases ls.len() - i,
    {
        assert(all.take(i + 1).drop_last() =~= all.take(i as int));
        assert(all[i as int] == ls@[i as int]@);
        let ghost prev = r@;
        match Task::decode_chars(&ls[i], now) {
            Ok(t) => {
                r.push(t);
                assert(task_views(r@) =~= task_views(prev).push(r@.last()@));
            },
            Err(_) => {},
        }
        i += 1;
    }
    assert(all.take(i as int) =~= all);
    r
}

/// Lists the tasks of the file as of the current time.
pub fn read_tasks(contents: &str) -> (r: Vec<Task>)
    ensures
        exists|now: Instant| task_views(r@) == file_tasks(contents@, now),
{
    let now = clock_now();
    let r = read_tasks_at(contents, now);
    assert(task_views(r@) == file_tasks(contents@, now));
    r
}

/// The largest id among the tasks, or 0 where there are none.
pub open spec fn max_id(ts: Seq<TaskView>) -> u8
    decreases ts.len(),
{
    if ts.len() == 0 {
        0
    } else {
        let m = max_id(ts.drop_last());
        if ts.last().id > m {
            ts.last().id
        } else {
            m
        }
    }
}

/// The id of the largest-numbered task of the file as of `now`, or 0 where it
/// holds none.
pub fn get_last_id_at(contents: &str, now: Instant) -> (r: u8)
    ensures
        r == max_id(file_tasks(contents@, now)),
{
    let tasks = read_tasks_at(contents, now);
    let ghost ts = task_views(tasks@);
    let mut last: u8 = 0;
    let mut i: usize = 0;
    assert(ts.take(0) =~= Seq::<TaskView>::empty());
    while i < tasks.len()
        invariant
            i <= tasks.len(),
            ts == task_views(tasks@),
            last == max_id(ts.take(i as int)),
        decreases tasks.len() - i,
    {
        assert(ts.take(i + 1).drop_last() =~= ts.take(i as int));
        assert(ts[i as int] == tasks@[i as int]@);
        if tasks[i].id > last {
            last = tasks[i].id;
        }
        i += 1;
    }
    assert(ts.take(i as int) =~= ts);
    last
}

/// `get_last_id_at` as of the current time.
pub fn get_last_id(contents: &str) -> (r: u8)
    ensures
        exists|now: Instant| r == max_id(file_tasks(contents@, now)),
{
    let now = clock_now();
    get_last_id_at(contents, now)
}

/// Whether the line reads as a task with this id, valid or not.
pub open spec fn holds_id(line: Seq<char>, id: u8) -> bool {
    match parse_line(line) {
        Ok(t) => t.id == id,
        Err(_) => false,
    }
}

/// The lines, without those that read as a task with this id.
pub open spec fn without_id(ls: Seq<Seq<char>>, id: u8) -> Seq<Seq<char>>
    decreases ls.len(),
{
    if ls.len() == 0 {
        ls
    } else {
        let before = without_id(ls.drop_last(), id);
        if holds_id(ls.last(), id) {
            before
        } else {
            before.push(ls.last())
        }
    }
}

/// Appends `line` to `out`, after a line break unless it is the first line.
fn push_line(out: &mut Vec<char>, line: &Vec<char>, first: bool, Ghost(ls): Ghost<Seq<Seq<char>>>)
    requires
        first <==> ls.len() == 0,
        old(out)@ == unlines(ls),
    ensures
        final(out)@ == unlines(ls.push(line@)),
{
    if !first {
        out.push('\n');
    }
    let mut j: usize = 0;
    let ghost start = out@;
    while j < line.len()
        invariant
            j <= line.len(),
            out@ == start + line@.take(j as int),
        decreases line.len() - j,
    {
        out.push(line[j]);
        assert(out@ =~= start + line@.take(j + 1));
        j += 1;
    }
    assert(line@.take(line.len() as int) =~= line@);
    assert(ls.push(line@).drop_last() =~= ls);
    assert(final(out)@ =~= unlines(ls.push(line@)));
}

/// The contents without the lines that hold a task with this id. A task that
/// breaks the rules can be deleted too; lines that hold no task stay.
pub fn delete_task(contents: &str, id: u8) -> (r: String)
    ensures
        r@ == unlines(without_id(lines(contents@), id)),
{
    let cs = chars_of(contents);
    let ls = split_on(&cs, '\n');
    let ghost all = views(ls@);
    let mut out: Vec<char> = Vec::new();
    let mut first = true;
    let mut i: usize = 0;
    assert(all.take(0) =~= Seq::<Seq<char>>::empty());
    while i < ls.len()
        invariant
            i <= ls.len(),
            all == views(ls@),
            all == lines(contents@),
            first <==> without_id(all.take(i as int), id).len() == 0,
            out@ == unlines(without_id(all.take(i as int), id)),
        decreases ls.len() - i,
    {
        assert(all.take(i + 1).drop_last() =~= all.take(i as int));
        assert(all[i as int] == ls@[i as int]@);
        let keep = match Task::parse_chars(&ls[i]) {
            Ok(t) => t.id != id,
            Err(_) => true,
        };
        if keep {
            push_line(&mut out, &ls[i], first, Ghost(without_id(all.take(i as int), id)));
            first = false;
        }
        i += 1;
    }
    assert(all.take(i as int) =~= all);
    string_of(&out)
}

/// The lines of the tasks, each ended by a line break.
pub open spec fn tasks_text(ts: Seq<TaskView>) -> Seq<char>
    decreases ts.len(),
{
    if ts.len() == 0 {
        Seq::empty()
    } else {
        tasks_text(ts.drop_last()) + encode(ts.last()) + seq!['\n']
    }
}

/// The contents of a file that holds these tasks, one per line.
pub fn write_tasks(tasks: &Vec<Task>) -> (r: String)
    ensures
        r@ == tasks_text(task_views(tasks@)),
{
    let ghost ts = task_views(tasks@);
    let mut out = String::new();
    let mut i: usize = 0;
    assert(ts.take(0) =~= Seq::<TaskView>::empty());
    while i < tasks.len()
        invariant
            i <= tasks.len(),
            ts == task_views(tasks@),
            out@ == tasks_text(ts.take(i as int)),
        decreases tasks.len() - i,
    {
        assert(ts.take(i + 1).drop_last() =~= ts.take(i as int));
        assert(ts[i as int] == tasks@[i as int]@);
        let line = tasks[i].to_line();
        out.append(line.as_str());
        out.push('\n');
        assert(out@ =~= tasks_text(ts.take(i + 1)));
        i += 1;
    }
    assert(ts.take(i as int) =~= ts);
    out
}


/// Whether the line decodes, as of `now`, to a task with this id.
pub open spec fn has_task(line: Seq<char>, id: u8, now: Instant) -> bool {
    match decode(line, now) {
        Ok(t) => t.id == id,
        Err(_) => false,
    }
}

/// The position of the first line that decodes, as of `now`, to a task with
/// this id; -1 where there is none.
pub open spec fn first_with(ls: Seq<Seq<char>>, id: u8, now: Instant) -> int
    decreases ls.len(),
{
    if ls.len() == 0 {
        -1
    } else {
        let k = first_with(ls.drop_last(), id, now);
        if k >= 0 {
            k
        } else if has_task(ls.last(), id, now) {
            ls.len() - 1
        } else {
            -1
        }
    }
}

pub proof fn lemma_first_with(ls: Seq<Seq<char>>, id: u8, now: Instant)
    ensures
        -1 <= first_with(ls, id, now) < ls.len(),
        first_with(ls, id, now) >= 0 ==> has_task(ls[first_with(ls, id, now)], id, now),
        first_with(ls, id, now) < 0 ==> forall|j: int| 0 <= j < ls.len() ==> !has_task(#[trigger] ls[j], id, now),
        forall|j: int| 0 <= j < first_with(ls, id, now) ==> !has_task(#[trigger] ls[j], id, now),
    decreases ls.len(),
{
    if ls.len() > 0 {
        let t = ls.drop_last();
        lemma_first_with(t, id, now);
        assert forall|j: int| 0 <= j < t.len() implies #[trigger] ls[j] == t[j] by {}
    }
}

/// The task of the line at position `k`, which decodes.
pub open spec fn task_of(line: Seq<char>, now: Instant) -> TaskView {
    decode(line, now)->Ok_0
}

/// Finds the first line with a task of this id and the task it holds, as of
/// `now`.
fn find_task(ls: &Vec<Vec<char>>, id: u8, now: Instant) -> (r: Option<(usize, Task)>)
    ensures
        match r {
            Some((k, t)) => k == first_with(views(ls@), id, now) && t@ == task_of(views(ls@)[k as int], now),
            None => first_with(views(ls@), id, now) < 0,
        },
{
    let ghost all = views(ls@);
    let mut i: usize = 0;
    assert(all.take(0) =~= Seq::<Seq<char>>::empty());
    while i < ls.len()
        invariant
            i <= ls.len(),
            all == views(ls@),
            first_with(all.take(i as int), id, now) < 0,
        decreases ls.len() - i,
    {
        assert(all.take(i + 1).drop_last() =~= all.take(i as int));
        assert(all[i as int] == ls@[i as int]@);
        match Task::decode_chars(&ls[i], now) {
            Ok(t) => {
                if t.id == id {
                    proof {
                        lemma_first_with_prefix(all, i + 1, id, now);
                    }
                    return Some((i, t));
                }
            },
            Err(_) => {},
        }
        i += 1;
    }
    assert(all.take(i as int) =~= all);
    None
}

proof fn lemma_first_with_prefix(ls: Seq<Seq<char>>, k: int, id: u8, now: Instant)
    requires
        0 <= k <= ls.len(),
        first_with(ls.take(k), id, now) >= 0,
    ensures
        first_with(ls, id, now) == first_with(ls.take(k), id, now),
    decreases ls.len() - k,
{
    if k < ls.len() {
        assert(ls.take(k + 1).drop_last() =~= ls.take(k));
        lemma_first_with_prefix(ls, k + 1, id, now);
    } else {
        assert(ls.take(k) =~= ls);
    }
}

/// What reading the task of this id gives, as of `now`.
pub open spec fn read_outcome(s: Seq<char>, id: u8, now: Instant) -> Result<TaskView, TaskError> {
    let k = first_with(lines(s), id, now);
    if k >= 0 {
        Ok(task_of(lines(s)[k], now))
    } else {
        Err(TaskError::NotFound(id))
    }
}

/// The first task of the file with this id, as of `now`.
pub fn read_task_at(contents: &str, id: u8, now: Instant) -> (r: Result<Task, TaskError>)
    ensures
        result_view(r) == read_outcome(contents@, id, now),
{
    let cs = chars_of(contents);
    let ls = split_on(&cs, '\n');
    match find_task(&ls, id, now) {
        Some((_, t)) => Ok(t),
        None => Err(TaskError::NotFound(id)),
    }
}

/// `read_task_at` as of the current time.
pub fn read_task(contents: &str, id: u8) -> (r: Result<Task, TaskError>)
    ensures
        exists|now: Instant| result_view(r) == #[trigger] read_outcome(contents@, id, now),
{
    let now = clock_now();
    let r = read_task_at(contents, id, now);
    assert(result_view(r) == read_outcome(contents@, id, now));
    r
}

/// What adding the task gives as of `now`: its line, line break included, or
/// the rule it breaks.
pub open spec fn append_outcome(t: TaskView, now: Instant) -> Result<Seq<char>, ValidationError> {
    match validation(t, now) {
        Ok(_) => Ok(encode(t).push('\n')),
        Err(e) => Err(e),
    }
}

pub open spec fn text_result<E>(r: Result<String, E>) -> Result<Seq<char>, E> {
    match r {
        Ok(s) => Ok(s@),
        Err(e) => Err(e),
    }
}

/// The line to add at the end of the file for the task, where the task passes
/// validation as of `now`.
pub fn append_task_at(task: &Task, now: Instant) -> (r: Result<String, ValidationError>)
    ensures
        text_result(r) == append_outcome(task@, now),
{
    match task.validate_at(now) {
        Ok(()) => {
            let mut line = task.to_line();
            line.push('\n');
            Ok(line)
        },
        Err(e) => Err(e),
    }
}

/// `append_task_at` as of the current time.
pub fn append_task(task: &Task) -> (r: Result<String, ValidationError>)
    ensures
        exists|now: Instant| text_result(r) == #[trigger] append_outcome(task@, now),
{
    let now = clock_now();
    let r = append_task_at(task, now);
    assert(text_result(r) == append_outcome(task@, now));
    r
}

/// The id of the next task: one more than the largest id among the tasks.
/// Past 255 it wraps to 0, which validation refuses.
pub open spec fn next_id(ts: Seq<TaskView>) -> u8 {
    if max_id(ts) < 255 {
        (max_id(ts) + 1) as u8
    } else {
        0
    }
}

/// The open task with the next id that creating makes of these fields.
pub open spec fn created(
    contents: Seq<char>,
    title: Seq<char>,
    due_date: Option<Seq<char>>,
    priority: Option<u8>,
    tags: Seq<Seq<char>>,
    now: Instant,
) -> TaskView {
    TaskView {
        id: next_id(file_tasks(contents, now)),
        title,
        status: Status::Open,
        due_date,
        priority,
        tags,
    }
}

pub open spec fn created_result(r: Result<(Task, String), ValidationError>) -> Result<
    (TaskView, Seq<char>),
    ValidationError,
> {
    match r {
        Ok((t, line)) => Ok((t@, line@)),
        Err(e) => Err(e),
    }
}

/// What creating a task of these fields gives as of `now`: the task and its
/// line, line break included, or the rule it breaks.
pub open spec fn create_outcome(
    contents: Seq<char>,
    title: Seq<char>,
    due_date: Option<Seq<char>>,
    priority: Option<u8>,
    tags: Seq<Seq<char>>,
    now: Instant,
) -> Result<(TaskView, Seq<char>), ValidationError> {
    let t = created(contents, title, due_date, priority, tags, now);
    match append_outcome(t, now) {
        Ok(line) => Ok((t, line)),
        Err(e) => Err(e),
    }
}

/// Makes a new open task with the next id, and gives it with the line to add at
/// the end of the file, where it passes validation as of `now`.
pub fn create_task_at(
    contents: &str,
    title: String,
    due_date: Option<String>,
    priority: Option<u8>,
    tags: Vec<String>,
    now: Instant,
) -> (r: Result<(Task, String), ValidationError>)
    ensures
        created_result(r) == create_outcome(
            contents@,
            title@,
            opt_view(due_date),
            priority,
            tags.deep_view(),
            now,
        ),
{
    let last = get_last_id_at(contents, now);
    let id: u8 = if last < 255 {
        last + 1
    } else {
        0
    };
    let task = Task { id, title, status: Status::Open, due_date, priority, tags };
    match append_task_at(&task, now) {
        Ok(line) => Ok((task, line)),
        Err(e) => Err(e),
    }
}

/// `create_task_at` as of the current time.
pub fn create_task(
    contents: &str,
    title: String,
    due_date: Option<String>,
    priority: Option<u8>,
    tags: Vec<String>,
) -> (r: Result<(Task, String), ValidationError>)
    ensures
        exists|now: Instant|
            created_result(r) == #[trigger] create_outcome(
                contents@,
                title@,
                opt_view(due_date),
                priority,
                tags.deep_view(),
                now,
            ),
{
    let now = clock_now();
    let ghost args = (title@, opt_view(due_date), tags.deep_view());
    let r = create_task_at(contents, title, due_date, priority, tags, now);
    assert(created_result(r) == create_outcome(contents@, args.0, args.1, priority, args.2, now));
    r
}

/// Writes the lines, joined by line breaks.
fn join_lines(ls: &Vec<Vec<char>>) -> (r: String)
    ensures
        r@ == unlines(views(ls@)),
{
    let ghost all = views(ls@);
    let mut out: Vec<char> = Vec::new();
    let mut i: usize = 0;
    assert(all.take(0) =~= Seq::<Seq<char>>::empty());
    while i < ls.len()
        invariant
            i <= ls.len(),
            all == views(ls@),
            out@ == unlines(all.take(i as int)),
        decreases ls.len() - i,
    {
        assert(all.take(i + 1) =~= all.take(i as int).push(ls@[i as int]@));
        push_line(&mut out, &ls[i], i == 0, Ghost(all.take(i as int)));
        i += 1;
    }
    assert(all.take(i as int) =~= all);
    string_of(&out)
}

/// What replacing the task of this id by `t` gives as of `now`: the contents
/// with the first line that holds a task of this id replaced by the line of
/// `t`, every other line as it was. Fails where no line holds such a task, and
/// else where `t` does not pass validation.
pub open spec fn update_outcome(s: Seq<char>, id: u8, t: TaskView, now: Instant) -> Result<
    Seq<char>,
    TaskError,
> {
    let ls = lines(s);
    let k = first_with(ls, id, now);
    if k < 0 {
        Err(TaskError::NotFound(id))
    } else {
        match validation(t, now) {
            Ok(_) => Ok(unlines(ls.update(k, encode(t)))),
            Err(v) => Err(TaskError::Invalid(v)),
        }
    }
}

/// Replaces the task of this id by `task`, as of `now`.
pub fn update_task_at(contents: &str, id: u8, task: &Task, now: Instant) -> (r: Result<
    String,
    TaskError,
>)
    ensures
        text_result(r) == update_outcome(contents@, id, task@, now),
{
    let cs = chars_of(contents);
    let mut ls = split_on(&cs, '\n');
    let k = match find_task(&ls, id, now) {
        Some((k, _)) => k,
        None => return Err(TaskError::NotFound(id)),
    };
    if let Err(v) = task.validate_at(now) {
        return Err(TaskError::Invalid(v));
    }
    let line = chars_of(task.to_line().as_str());
    proof {
        lemma_first_with(views(ls@), id, now);
    }
    let ghost before = views(ls@);
    ls.set(k, line);
    assert(views(ls@) =~= before.update(k as int, encode(task@)));
    Ok(join_lines(&ls))
}

/// `update_task_at` as of the current time.
pub fn update_task(contents: &str, id: u8, task: &Task) -> (r: Result<String, TaskError>)
    ensures
        exists|now: Instant| text_result(r) == #[trigger] update_outcome(contents@, id, task@, now),
{
    let now = clock_now();
    let r = update_task_at(contents, id, task, now);
    assert(text_result(r) == update_outcome(contents@, id, task@, now));
    r
}

} // verus!
