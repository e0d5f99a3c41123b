//! The task record and its one-line text form.
//!
//! A task is written as `<id>. [<marker>] "<title>"; ` followed by the fields
//! that are present, each as `<key>: <value>; `, in the order due, priority,
//! tags. Reading a line back matches the optional fields by key, in any order.

use vstd::prelude::*;
use vstd::string::*;
use crate::text::{
    chars_eq, chars_of, decimal, decimal_u8, lemma_split_first, lemma_split_len, parse_u8, skip_chars,
    split, split_on, str_eq, string_of, trim, trim_chars, views, write_u8,
};

verus! {

/// Where a task stands.
#[derive(Clone, Copy, Debug, PartialEq, Eq, Structural)]
pub enum Status {
    Open,
    InProgress,
    Done,
    Overdue,
}

impl Status {
    /// The character that stands for the status between the brackets.
    pub open spec fn marker_spec(self) -> char {
        match self {
            Status::Open => ' ',
            Status::InProgress => '>',
            Status::Done => 'x',
            Status::Overdue => '!',
        }
    }

    pub open spec fn from_marker_spec(c: char) -> Option<Status> {
        if c == ' ' {
            Some(Status::Open)
        } else if c == '>' {
            Some(Status::InProgress)
        } else if c == 'x' {
            Some(Status::Done)
        } else if c == '!' {
            Some(Status::Overdue)
        } else {
            None
        }
    }

    /// The status that a command names: `open`, `in-progress`, `done` or
    /// `overdue`.
    pub open spec fn from_keyword_spec(k: Seq<char>) -> Option<Status> {
        if k == seq!['o', 'p', 'e', 'n'] {
            Some(Status::Open)
        } else if k == seq!['i', 'n', '-', 'p', 'r', 'o', 'g', 'r', 'e', 's', 's'] {
            Some(Status::InProgress)
        } else if k == seq!['d', 'o', 'n', 'e'] {
            Some(Status::Done)
        } else if k == seq!['o', 'v', 'e', 'r', 'd', 'u', 'e'] {
            Some(Status::Overdue)
        } else {
            None
        }
    }

    pub fn marker(&self) -> (r: char)
        ensures
            r == self.marker_spec(),
    {
        match self {
            Status::Open => ' ',
            Status::InProgress => '>',
            Status::Done => 'x',
            Status::Overdue => '!',
        }
    }

    pub fn from_marker(c: char) -> (r: Option<Status>)
        ensures
            r == Status::from_marker_spec(c),
    {
        if c == ' ' {
            Some(Status::Open)
        } else if c == '>' {
            Some(Status::InProgress)
        } else if c == 'x' {
            Some(Status::Done)
        } else if c == '!' {
            Some(Status::Overdue)
        } else {
            None
        }
    }

    pub fn from_keyword(k: &str) -> (r: Option<Status>)
        ensures
            r == Status::from_keyword_spec(k@),
    {
        proof {
            reveal_strlit("open");
            reveal_strlit("in-progress");
            reveal_strlit("done");
            reveal_strlit("overdue");
            assert("open"@ =~= seq!['o', 'p', 'e', 'n']);
            assert("in-progress"@ =~= seq!['i', 'n', '-', 'p', 'r', 'o', 'g', 'r', 'e', 's', 's']);
            assert("done"@ =~= seq!['d', 'o', 'n', 'e']);
            assert("overdue"@ =~= seq!['o', 'v', 'e', 'r', 'd', 'u', 'e']);
        }
        if str_eq(k, "open") {
            Some(Status::Open)
        } else if str_eq(k, "in-progress") {
            Some(Status::InProgress)
        } else if str_eq(k, "done") {
            Some(Status::Done)
        } else if str_eq(k, "overdue") {
            Some(Status::Overdue)
        } else {
            None
        }
    }
}

/// A task as the tracker keeps it.
#[derive(Debug)]
pub struct Task {
    pub id: u8,
    pub title: String,
    pub status: Status,
    pub due_date: Option<String>,
    pub priority: Option<u8>,
    pub tags: Vec<String>,
}

/// The value of a task, with its text as character sequences.
pub struct TaskView {
    pub id: u8,
    pub title: Seq<char>,
    pub status: Status,
    pub due_date: Option<Seq<char>>,
    pub priority: Option<u8>,
    pub tags: Seq<Seq<char>>,
}

pub open spec fn opt_view(o: Option<String>) -> Option<Seq<char>> {
    match o {
        Some(s) => Some(s@),
        None => None,
    }
}

impl View for Task {
    type V = TaskView;

    open spec fn view(&self) -> TaskView {
        TaskView {
            id: self.id,
            title: self.title@,
            status: self.status,
            due_date: opt_view(self.due_date),
            priority: self.priority,
            tags: self.tags.deep_view(),
        }
    }
}

/// The tags joined by a comma and a space.
pub open spec fn join(ts: Seq<Seq<char>>) -> Seq<char>
    decreases ts.len(),
{
    if ts.len() == 0 {
        Seq::empty()
    } else if ts.len() == 1 {
        ts[0]
    } else {
        join(ts.drop_last()) + seq![',', ' '] + ts.last()
    }
}

/// `<id>. [<marker>] "<title>"; `
pub open spec fn head_text(t: TaskView) -> Seq<char> {
    decimal(t.id as nat) + seq!['.', ' ', '['] + seq![t.status.marker_spec(), ']', ' ', '"']
        + t.title + seq!['"', ';', ' ']
}

pub open spec fn due_key() -> Seq<char> {
    seq!['d', 'u', 'e']
}

pub open spec fn priority_key() -> Seq<char> {
    seq!['p', 'r', 'i', 'o', 'r', 'i', 't', 'y']
}

pub open spec fn tags_key() -> Seq<char> {
    seq!['t', 'a', 'g', 's']
}

/// `<key>: <value>; `
pub open spec fn field_text(key: Seq<char>, value: Seq<char>) -> Seq<char> {
    key + seq![':', ' '] + value + seq![';', ' ']
}

pub open spec fn due_text(t: TaskView) -> Seq<char> {
    match t.due_date {
        Some(d) => field_text(due_key(), d),
        None => Seq::empty(),
    }
}

pub open spec fn priority_text(t: TaskView) -> Seq<char> {
    match t.priority {
        Some(p) => field_text(priority_key(), decimal(p as nat)),
        None => Seq::empty(),
    }
}

pub open spec fn tags_text(t: TaskView) -> Seq<char> {
    if t.tags.len() > 0 {
        field_text(tags_key(), join(t.tags))
    } else {
        Seq::empty()
    }
}

/// The line that stands for a task.
pub open spec fn encode(t: TaskView) -> Seq<char> {
    head_text(t) + due_text(t) + priority_text(t) + tags_text(t)
}

/// Why a line is not a task.
#[derive(Clone, Copy, Debug, PartialEq, Eq, Structural)]
pub enum DecodeError {
    /// The text before the first `.` is not a number from 0 to 255.
    BadId,
    /// The first `[` is not followed by one status marker and `]`.
    BadStatus,
    /// The line holds fewer than two `"`.
    MissingTitle,
    /// A `priority` field is not a number from 0 to 255.
    BadPriority,
}

/// The optional fields read from a line so far.
pub struct Fields {
    pub due_date: Option<Seq<char>>,
    pub priority: Option<u8>,
    pub tags: Seq<Seq<char>>,
}

/// The key of a `key: value` segment: the text before its first `:`, trimmed.
pub open spec fn key_of(seg: Seq<char>) -> Seq<char> {
    trim(split(seg, ':')[0])
}

/// The value of a `key: value` segment: the text after its first `:`, trimmed;
/// empty where there is no `:`.
pub open spec fn value_of(seg: Seq<char>) -> Seq<char> {
    let parts = split(seg, ':');
    if parts.len() > 1 {
        trim(seg.skip(parts[0].len() as int + 1))
    } else {
        Seq::empty()
    }
}

/// The tags that a `tags` value lists.
pub open spec fn tag_list(v: Seq<char>) -> Seq<Seq<char>> {
    split(v, ',').map_values(|p: Seq<char>| trim(p))
}

/// What one segment of a line does to the fields read so far. An unknown key
/// leaves them as they are.
pub open spec fn read_field(f: Fields, seg: Seq<char>) -> Result<Fields, DecodeError> {
    let k = key_of(seg);
    let v = value_of(seg);
    if k == due_key() {
        Ok(Fields { due_date: Some(v), ..f })
    } else if k == priority_key() {
        match decimal_u8(v) {
            Some(p) => Ok(Fields { priority: Some(p), ..f }),
            None => Err(DecodeError::BadPriority),
        }
    } else if k == tags_key() {
        Ok(Fields { tags: tag_list(v), ..f })
    } else {
        Ok(f)
    }
}

pub open spec fn no_fields() -> Fields {
    Fields { due_date: None, priority: None, tags: Seq::empty() }
}

/// The fields that the segments give, read in order.
pub open spec fn read_fields(segs: Seq<Seq<char>>) -> Result<Fields, DecodeError>
    decreases segs.len(),
{
    if segs.len() == 0 {
        Ok(no_fields())
    } else {
        match read_fields(segs.drop_last()) {
            Ok(f) => read_field(f, segs.last()),
            Err(e) => Err(e),
        }
    }
}

/// The status that the first `[` of the line opens, where one marker and a
/// `]` follow it.
pub open spec fn status_of(line: Seq<char>) -> Option<Status> {
    let b = split(line, '[');
    if b.len() >= 2 && b[1].len() >= 2 && b[1][1] == ']' {
        Status::from_marker_spec(b[1][0])
    } else {
        None
    }
}

/// The task that a line writes, before the rules of `validate` are applied.
pub open spec fn parse_line(line: Seq<char>) -> Result<TaskView, DecodeError> {
    let id = decimal_u8(split(line, '.')[0]);
    let status = status_of(line);
    let quoted = split(line, '"');
    if id is None {
        Err(DecodeError::BadId)
    } else if status is None {
        Err(DecodeError::BadStatus)
    } else if quoted.len() < 3 {
        Err(DecodeError::MissingTitle)
    } else {
        match read_fields(split(line, ';').drop_first()) {
            Ok(f) => Ok(
                TaskView {
                    id: id->0,
                    title: quoted[1],
                    status: status->0,
                    due_date: f.due_date,
                    priority: f.priority,
                    tags: f.tags,
                },
            ),
            Err(e) => Err(e),
        }
    }
}

impl Task {
    /// The text of the task as one line, with no line break at its end.
    pub fn to_line(&self) -> (r: String)
        ensures
            r@ == encode(self@),
    {
        proof {
            reveal_strlit(". [");
            reveal_strlit("] \"");
            reveal_strlit("\"; ");
            reveal_strlit("due: ");
            reveal_strlit("priority: ");
            reveal_strlit("tags: ");
            reveal_strlit("; ");
        }
        let ghost t = self@;
        let mut out = String::new();
        write_u8(&mut out, self.id);
        out.append(". [");
        out.push(self.status.marker());
        out.append("] \"");
        out.append(self.title.as_str());
        out.append("\"; ");
        assert(out@ =~= head_text(t));
        match &self.due_date {
            Some(d) => {
                out.append("due: ");
                out.append(d.as_str());
                out.append("; ");
            },
            None => {},
        }
        assert(out@ =~= head_text(t) + due_text(t));
        match self.priority {
            Some(p) => {
                out.append("priority: ");
                write_u8(&mut out, p);
                out.append("; ");
            },
            None => {},
        }
        assert(out@ =~= head_text(t) + due_text(t) + priority_text(t));
        if self.tags.len() > 0 {
            out.append("tags: ");
            write_joined(&mut out, &self.tags);
            out.append("; ");
        }
        assert(out@ =~= encode(t));
        out
    }
}

impl Task {
    /// Reads the task that a line writes: its id, status and title, and the
    /// `due`, `priority` and `tags` fields, without applying the rules of
    /// `validate`.
    pub fn parse(line: &str) -> (r: Result<Task, DecodeError>)
        ensures
            match r {
                Ok(t) => parse_line(line@) == Ok::<TaskView, DecodeError>(t@),
                Err(e) => parse_line(line@) == Err::<TaskView, DecodeError>(e),
            },
    {
        let cs = chars_of(line);
        Task::parse_chars(&cs)
    }

    /// `parse`, on the characters of a line.
    pub fn parse_chars(cs: &Vec<char>) -> (r: Result<Task, DecodeError>)
        ensures
            match r {
                Ok(t) => parse_line(cs@) == Ok::<TaskView, DecodeError>(t@),
                Err(e) => parse_line(cs@) == Err::<TaskView, DecodeError>(e),
            },
    {
        proof {
            lemma_split_len(cs@, '.');
            lemma_split_len(cs@, ';');
        }
        let dots = split_on(cs, '.');
        let id = match parse_u8(&dots[0]) {
            Some(n) => n,
            None => return Err(DecodeError::BadId),
        };
        let opens = split_on(cs, '[');
        let marked = if opens.len() >= 2 && opens[1].len() >= 2 && opens[1][1] == ']' {
            Status::from_marker(opens[1][0])
        } else {
            None
        };
        let status = match marked {
            Some(s) => s,
            None => return Err(DecodeError::BadStatus),
        };
        let quoted = split_on(cs, '"');
        if quoted.len() < 3 {
            return Err(DecodeError::MissingTitle);
        }
        let title = string_of(&quoted[1]);
        assert(views(quoted@)[1] == quoted@[1]@);
        assert(views(dots@)[0] == dots@[0]@);
        let segs = split_on(cs, ';');
        let ghost rest = views(segs@).drop_first();
        let mut due_date: Option<String> = None;
        let mut priority: Option<u8> = None;
        let mut tags: Vec<String> = Vec::new();
        let mut i: usize = 1;
        assert(rest.take(0) =~= Seq::<Seq<char>>::empty());
        assert(tags.deep_view() =~= Seq::<Seq<char>>::empty());
        while i < segs.len()
            invariant
                1 <= i <= segs.len(),
                views(segs@) == split(cs@, ';'),
                rest == views(segs@).drop_first(),
                decimal_u8(split(cs@, '.')[0]) == Some(id),
                status_of(cs@) == Some(status),
                split(cs@, '"').len() >= 3,
                split(cs@, '"')[1] == title@,
                read_fields(rest.take(i - 1)) == Ok::<Fields, DecodeError>(
                    Fields { due_date: opt_view(due_date), priority, tags: tags.deep_view() },
                ),
            decreases segs.len() - i,
        {
            let ghost before = Fields {
                due_date: opt_view(due_date),
                priority,
                tags: tags.deep_view(),
            };
            assert(rest.take(i as int).drop_last() =~= rest.take(i - 1));
            assert(rest.take(i as int).last() == segs[i as int]@);
            proof {
                reveal_strlit("due");
                reveal_strlit("priority");
                reveal_strlit("tags");
                assert("due"@ =~= due_key());
                assert("priority"@ =~= priority_key());
                assert("tags"@ =~= tags_key());
            }
            let (key, value) = key_value(&segs[i]);
            if chars_eq_str(&key, "due") {
                due_date = Some(string_of(&value));
            } else if chars_eq_str(&key, "priority") {
                match parse_u8(&value) {
                    Some(p) => priority = Some(p),
                    None => {
                        assert(read_fields(rest.take(i as int)) == read_field(
                            before,
                            segs[i as int]@,
                        ));
                        assert(read_fields(rest.take(i as int)) == Err::<Fields, DecodeError>(
                            DecodeError::BadPriority,
                        ));
                        proof {
                            lemma_read_fields_err_stays(rest, i as int);
                        }
                        assert(rest.take(rest.len() as int) =~= rest);
                        return Err(DecodeError::BadPriority);
                    },
                }
            } else if chars_eq_str(&key, "tags") {
                tags = tag_strings(&value);
            }
            assert(read_fields(rest.take(i as int)) == read_field(before, segs[i as int]@));
            i += 1;
        }
        assert(rest.take(i - 1) =~= rest);
        Ok(Task { id, title, status, due_date, priority, tags })
    }
}

proof fn lemma_read_fields_err_stays(segs: Seq<Seq<char>>, k: int)
    requires
        0 <= k <= segs.len(),
        read_fields(segs.take(k)) is Err,
    ensures
        read_fields(segs) == read_fields(segs.take(k)),
    decreases segs.len() - k,
{
    if k < segs.len() {
        assert(segs.take(k + 1).drop_last() =~= segs.take(k));
        lemma_read_fields_err_stays(segs, k + 1);
    } else {
        assert(segs.take(k) =~= segs);
    }
}

/// The key and the value of a `key: value` segment.
fn key_value(seg: &Vec<char>) -> (r: (Vec<char>, Vec<char>))
    ensures
        r.0@ == key_of(seg@),
        r.1@ == value_of(seg@),
{
    proof {
        lemma_split_first(seg@, ':');
    }
    let parts = split_on(seg, ':');
    let key = trim_chars(&parts[0]);
    if parts.len() > 1 {
        assert(views(parts@)[0] == parts@[0]@);
        assert(views(parts@).len() == parts@.len());
        assert(parts[0].len() < seg.len());
        let after = skip_chars(seg, parts[0].len() + 1);
        (key, trim_chars(&after))
    } else {
        (key, Vec::new())
    }
}

/// The tags that a `tags` value lists, each trimmed.
pub(crate) fn tag_strings(value: &Vec<char>) -> (r: Vec<String>)
    ensures
        r.deep_view() == tag_list(value@),
{
    let pieces = split_on(value, ',');
    let ghost want = tag_list(value@);
    let mut r: Vec<String> = Vec::new();
    let mut j: usize = 0;
    while j < pieces.len()
        invariant
            j <= pieces.len(),
            views(pieces@) == split(value@, ','),
            want == tag_list(value@),
            want.len() == pieces.len(),
            r.len() == j,
            r.deep_view() == want.take(j as int),
        decreases pieces.len() - j,
    {
        let t = string_of(&trim_chars(&pieces[j]));
        assert(views(pieces@)[j as int] == pieces@[j as int]@);
        assert(want[j as int] == trim(pieces@[j as int]@));
        let ghost prev = r.deep_view();
        let ghost prev_r = r@;
        r.push(t);
        assert forall|k: int| 0 <= k < r.len() implies #[trigger] r.deep_view()[k] == want.take(
            j + 1,
        )[k] by {
            if k < j {
                assert(r@[k] == prev_r[k]);
                assert(prev[k] == want[k]);
            }
        }
        assert(r.deep_view() =~= want.take(j + 1));
        j += 1;
    }
    assert(want.take(j as int) =~= want);
    r
}

fn chars_eq_str(x: &Vec<char>, s: &str) -> (r: bool)
    ensures
        r == (x@ == s@),
{
    let y = chars_of(s);
    chars_eq(x, &y)
}

/// Writes the tags joined by a comma and a space.
fn write_joined(out: &mut String, tags: &Vec<String>)
    ensures
        final(out)@ == old(out)@ + join(tags.deep_view()),
{
    proof {
        reveal_strlit(", ");
    }
    let ghost start = out@;
    let ghost ts = tags.deep_view();
    let mut i: usize = 0;
    assert(ts.take(0) =~= Seq::<Seq<char>>::empty());
    assert(start + join(ts.take(0)) =~= start);
    while i < tags.len()
        invariant
            i <= tags.len(),
            ts == tags.deep_view(),
            out@ == start + join(ts.take(i as int)),
        decreases tags.len() - i,
    {
        if i > 0 {
            out.append(", ");
        }
        out.append(tags[i].as_str());
        assert(ts.take(i + 1).drop_last() =~= ts.take(i as int));
        assert(ts.take(i + 1).last() == tags[i as int]@);
        proof {
            reveal_strlit(", ");
        }
        assert(", "@ =~= seq![',', ' ']);
        if i == 0 {
            assert(join(ts.take(1)) == ts.take(1)[0]);
        }
        assert(out@ =~= start + join(ts.take(i + 1)));
        i += 1;
    }
    assert(ts.take(tags.len() as int) =~= ts);
}

} // verus!
