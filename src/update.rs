//! Changing the fields of a stored task.

use vstd::prelude::*;
use crate::storage::{read_outcome, read_task_at, text_result, update_outcome, update_task_at};
use crate::task::{tag_list, tag_strings, Status, Task, TaskView};
use crate::text::chars_of;
use crate::validate::{clock_now, Instant, TaskError, ValidationError};

verus! {

/// The changes that an update brings; a field left `None` stays as it is.
pub struct TaskUpdate {
    pub due_date: Option<String>,
    pub priority: Option<u8>,
    /// One of `open`, `in-progress`, `done`, `overdue`.
    pub status: Option<String>,
    pub title: Option<String>,
    /// Tags to add, separated by commas; those already there are not added again.
    pub append_tags: Option<String>,
    /// Tags to take away, separated by commas.
    pub remove_tags: Option<String>,
}

/// The tags with each of `added` put at the end, in order, unless it is there
/// already.
pub open spec fn with_tags_added(tags: Seq<Seq<char>>, added: Seq<Seq<char>>) -> Seq<Seq<char>>
    decreases added.len(),
{
    if added.len() == 0 {
        tags
    } else {
        let t = with_tags_added(tags, added.drop_last());
        if t.contains(added.last()) {
            t
        } else {
            t.push(added.last())
        }
    }
}

/// The tags, in order, but for those in `removed`.
pub open spec fn without_tags(tags: Seq<Seq<char>>, removed: Seq<Seq<char>>) -> Seq<Seq<char>>
    decreases tags.len(),
{
    if tags.len() == 0 {
        tags
    } else {
        let t = without_tags(tags.drop_last(), removed);
        if removed.contains(tags.last()) {
            t
        } else {
            t.push(tags.last())
        }
    }
}

/// The task with the changes of `u` made, or `InvalidStatus` where `u` names
/// no status. Tags are added before others are taken away.
pub open spec fn updated(t: TaskView, u: TaskUpdate) -> Result<TaskView, ValidationError> {
    let status = match u.status {
        Some(k) => Status::from_keyword_spec(k@),
        None => Some(t.status),
    };
    let added = match u.append_tags {
        Some(a) => with_tags_added(t.tags, tag_list(a@)),
        None => t.tags,
    };
    let tags = match u.remove_tags {
        Some(r) => without_tags(added, tag_list(r@)),
        None => added,
    };
    match status {
        Some(s) => Ok(
            TaskView {
                id: t.id,
                title: match u.title {
                    Some(x) => x@,
                    None => t.title,
                },
                status: s,
                due_date: match u.due_date {
                    Some(d) => Some(d@),
                    None => t.due_date,
                },
                priority: match u.priority {
                    Some(p) => Some(p),
                    None => t.priority,
                },
                tags,
            },
        ),
        None => Err(ValidationError::InvalidStatus),
    }
}

pub open spec fn changed_view(r: Result<Task, ValidationError>) -> Result<TaskView, ValidationError> {
    match r {
        Ok(t) => Ok(t@),
        Err(e) => Err(e),
    }
}

fn contains_tag(tags: &Vec<String>, tag: &String) -> (r: bool)
    ensures
        r == tags.deep_view().contains(tag@),
{
    let mut i: usize = 0;
    while i < tags.len()
        invariant
            i <= tags.len(),
            forall|j: int| 0 <= j < i ==> tags.deep_view()[j] != tag@,
        decreases tags.len() - i,
    {
        if crate::text::str_eq(tags[i].as_str(), tag.as_str()) {
            assert(tags.deep_view()[i as int] == tag@);
            return true;
        }
        i += 1;
    }
    false
}

fn copy_tags(tags: &Vec<String>) -> (r: Vec<String>)
    ensures
        r.deep_view() == tags.deep_view(),
{
    let mut r: Vec<String> = Vec::new();
    let mut i: usize = 0;
    while i < tags.len()
        invariant
            i <= tags.len(),
            r.deep_view() == tags.deep_view().take(i as int),
        decreases tags.len() - i,
    {
        let ghost prev = r.deep_view();
        r.push(tags[i].clone());
        assert(r.deep_view() =~= prev.push(tags[i as int]@));
        assert(tags.deep_view().take(i + 1) =~= tags.deep_view().take(i as int).push(tags[i as int]@));
        i += 1;
    }
    assert(tags.deep_view().take(i as int) =~= tags.deep_view());
    r
}

fn add_tags(tags: &mut Vec<String>, added: Vec<String>)
    ensures
        final(tags).deep_view() == with_tags_added(old(tags).deep_view(), added.deep_view()),
{
    let ghost start = tags.deep_view();
    let ghost add = added.deep_view();
    let mut i: usize = 0;
    assert(add.take(0) =~= Seq::<Seq<char>>::empty());
    while i < added.len()
        invariant
            i <= added.len(),
            add == added.deep_view(),
            tags.deep_view() == with_tags_added(start, add.take(i as int)),
        decreases added.len() - i,
    {
        assert(add.take(i + 1).drop_last() =~= add.take(i as int));
        assert(add.take(i + 1).last() == added[i as int]@);
        if !contains_tag(tags, &added[i]) {
            let ghost prev = tags.deep_view();
            tags.push(added[i].clone());
            assert(tags.deep_view() =~= prev.push(added[i as int]@));
        }
        i += 1;
    }
    assert(add.take(i as int) =~= add);
}

fn drop_tags(tags: &Vec<String>, removed: &Vec<String>) -> (r: Vec<String>)
    ensures
        r.deep_view() == without_tags(tags.deep_view(), removed.deep_view()),
{
    let ghost all = tags.deep_view();
    let mut r: Vec<String> = Vec::new();
    let mut i: usize = 0;
    assert(all.take(0) =~= Seq::<Seq<char>>::empty());
    while i < tags.len()
        invariant
            i <= tags.len(),
            all == tags.deep_view(),
            r.deep_view() == without_tags(all.take(i as int), removed.deep_view()),
        decreases tags.len() - i,
    {
        assert(all.take(i + 1).drop_last() =~= all.take(i as int));
        assert(all.take(i + 1).last() == tags[i as int]@);
        if !contains_tag(removed, &tags[i]) {
            let ghost prev = r.deep_view();
            r.push(tags[i].clone());
            assert(r.deep_view() =~= prev.push(tags[i as int]@));
        }
        i += 1;
    }
    assert(all.take(i as int) =~= all);
    r
}

fn copy_opt(o: &Option<String>) -> (r: Option<String>)
    ensures
        crate::task::opt_view(r) == crate::task::opt_view(*o),
{
    match o {
        Some(s) => Some(s.clone()),
        None => None,
    }
}

impl Task {
    /// The task after the changes in `u`, before any validation.
    pub fn with_update(&self, u: &TaskUpdate) -> (r: Result<Task, ValidationError>)
        ensures
            changed_view(r) == updated(self@, *u),
    {
        let status = match &u.status {
            Some(k) => match Status::from_keyword(k.as_str()) {
                Some(s) => s,
                None => return Err(ValidationError::InvalidStatus),
            },
            None => self.status,
        };
        let mut tags = copy_tags(&self.tags);
        if let Some(a) = &u.append_tags {
            let added = tag_strings(&chars_of(a.as_str()));
            add_tags(&mut tags, added);
        }
        if let Some(rm) = &u.remove_tags {
            let removed = tag_strings(&chars_of(rm.as_str()));
            tags = drop_tags(&tags, &removed);
        }
        let title = match &u.title {
            Some(x) => x.clone(),
            None => self.title.clone(),
        };
        let due_date = match &u.due_date {
            Some(d) => Some(d.clone()),
            None => copy_opt(&self.due_date),
        };
        let priority = match u.priority {
            Some(p) => Some(p),
            None => self.priority,
        };
        Ok(Task { id: self.id, title, status, due_date, priority, tags })
    }
}

/// What changing the task of this id by `u` gives as of `now`: the task is read,
/// changed, validated and written back in place of its line.
pub open spec fn change_outcome(s: Seq<char>, id: u8, u: TaskUpdate, now: Instant) -> Result<
    Seq<char>,
    TaskError,
> {
    match read_outcome(s, id, now) {
        Ok(t) => match updated(t, u) {
            Ok(t2) => update_outcome(s, id, t2, now),
            Err(v) => Err(TaskError::Invalid(v)),
        },
        Err(e) => Err(e),
    }
}

/// Changes the task of this id by `u`, as of `now`, and gives the new contents.
pub fn apply_update_at(contents: &str, id: u8, u: &TaskUpdate, now: Instant) -> (r: Result<
    String,
    TaskError,
>)
    ensures
        text_result(r) == change_outcome(contents@, id, *u, now),
{
    let task = match read_task_at(contents, id, now) {
        Ok(t) => t,
        Err(e) => return Err(e),
    };
    let changed = match task.with_update(u) {
        Ok(t) => t,
        Err(v) => return Err(TaskError::Invalid(v)),
    };
    update_task_at(contents, id, &changed, now)
}

/// `apply_update_at` as of the current time.
pub fn apply_update(contents: &str, id: u8, u: &TaskUpdate) -> (r: Result<String, TaskError>)
    ensures
        exists|now: Instant| text_result(r) == #[trigger] change_outcome(contents@, id, *u, now),
{
    let now = clock_now();
    let r = apply_update_at(contents, id, u, now);
    assert(text_result(r) == change_outcome(contents@, id, *u, now));
    r
}

} // verus!
