//! The rules that a task must meet before it is written, and the reading of a
//! line into a valid task.
//!
//! A due date is read by chrono, either as an RFC 3339 timestamp with an offset
//! or as a `YYYY-MM-DD` calendar date. A timestamp must not lie before the
//! moment of validation, so a task that passed once may fail later.

use vstd::prelude::*;
use crate::task::{parse_line, DecodeError, Task, TaskView};

verus! {

/// A point in time: whole seconds since 1970-01-01T00:00:00Z and the
/// nanoseconds past that second (1_000_000_000 or more within a leap second).
#[derive(Clone, Copy, Debug, PartialEq, Eq, Structural)]
pub struct Instant {
    pub secs: i64,
    pub nanos: u32,
}

/// Whether `a` lies strictly before `b`.
pub open spec fn before(a: Instant, b: Instant) -> bool {
    a.secs < b.secs || (a.secs == b.secs && a.nanos < b.nanos)
}

pub fn is_before(a: Instant, b: Instant) -> (r: bool)
    ensures
        r == before(a, b),
{
    a.secs < b.secs || (a.secs == b.secs && a.nanos < b.nanos)
}

/// What the text of a due date is.
#[derive(Clone, Copy, Debug, PartialEq, Eq, Structural)]
pub enum DueDate {
    /// An RFC 3339 timestamp, naming this instant.
    Timestamp(Instant),
    /// A calendar date without a time of day.
    Calendar,
    /// Neither.
    Unreadable,
}

/// The instant that chrono reads from an RFC 3339 timestamp, as seconds and
/// nanoseconds; `None` where the text is not one.
pub uninterp spec fn rfc3339_instant(s: Seq<char>) -> Option<(i64, u32)>;

/// Whether chrono reads the text as a `%Y-%m-%d` calendar date.
pub uninterp spec fn is_calendar_date(s: Seq<char>) -> bool;

/// Relies on chrono's `DateTime::parse_from_rfc3339`, with `timestamp` and
/// `timestamp_subsec_nanos` of the result: the instant that the text names.
#[verifier::external_body]
fn parse_rfc3339(s: &str) -> (r: Option<(i64, u32)>)
    ensures
        r == rfc3339_instant(s@),
{
    match chrono::DateTime::parse_from_rfc3339(s) {
        Ok(d) => Some((d.timestamp(), d.timestamp_subsec_nanos())),
        Err(_) => None,
    }
}

/// Relies on chrono's `NaiveDate::parse_from_str` with the format `%Y-%m-%d`:
/// whether the text is a calendar date.
#[verifier::external_body]
fn parse_calendar_date(s: &str) -> (r: bool)
    ensures
        r == is_calendar_date(s@),
{
    chrono::NaiveDate::parse_from_str(s, "%Y-%m-%d").is_ok()
}

/// Relies on chrono's `Utc::now`, with `timestamp` and `timestamp_subsec_nanos`
/// of the result: the system clock's current instant. Nothing is known of it.
#[verifier::external_body]
pub(crate) fn clock_now() -> (r: Instant) {
    let n = chrono::Utc::now();
    Instant { secs: n.timestamp(), nanos: n.timestamp_subsec_nanos() }
}

/// What a due date's text is: a timestamp where chrono reads one, else a
/// calendar date where chrono reads one, else unreadable.
pub open spec fn due_date_kind(s: Seq<char>) -> DueDate {
    match rfc3339_instant(s) {
        Some(p) => DueDate::Timestamp(Instant { secs: p.0, nanos: p.1 }),
        None => if is_calendar_date(s) {
            DueDate::Calendar
        } else {
            DueDate::Unreadable
        },
    }
}

pub fn classify_due_date(s: &str) -> (r: DueDate)
    ensures
        r == due_date_kind(s@),
{
    match parse_rfc3339(s) {
        Some(p) => DueDate::Timestamp(Instant { secs: p.0, nanos: p.1 }),
        None => if parse_calendar_date(s) {
            DueDate::Calendar
        } else {
            DueDate::Unreadable
        },
    }
}

/// The rule that a task breaks.
#[derive(Clone, Copy, Debug, PartialEq, Eq, Structural)]
pub enum ValidationError {
    /// The id is 0, which no task may have.
    InvalidId,
    /// The title is empty or holds `"` or `;`.
    InvalidTitle,
    /// A status word names none of the four statuses.
    InvalidStatus,
    /// The priority lies outside 1 to 9.
    InvalidPriority,
    /// The due date is neither a timestamp nor a calendar date, or is a
    /// timestamp already past.
    InvalidDueDate,
}

/// A title is not empty and holds neither `"` nor `;`, which bound it in a line.
pub open spec fn title_ok(t: Seq<char>) -> bool {
    t.len() > 0 && !t.contains('"') && !t.contains(';')
}

pub open spec fn priority_ok(p: Option<u8>) -> bool {
    match p {
        Some(n) => 1 <= n <= 9,
        None => true,
    }
}

/// A due date passes unless it is unreadable or a timestamp before `now`.
pub open spec fn due_ok(due: Option<DueDate>, now: Instant) -> bool {
    match due {
        Some(DueDate::Timestamp(i)) => !before(i, now),
        Some(DueDate::Calendar) => true,
        Some(DueDate::Unreadable) => false,
        None => true,
    }
}

/// The first rule that the task breaks, in the order id, title, priority, due
/// date, where its due date is of kind `due` and the time is `now`.
pub open spec fn check_rules(t: TaskView, due: Option<DueDate>, now: Instant) -> Result<
    (),
    ValidationError,
> {
    if t.id == 0 {
        Err(ValidationError::InvalidId)
    } else if !title_ok(t.title) {
        Err(ValidationError::InvalidTitle)
    } else if !priority_ok(t.priority) {
        Err(ValidationError::InvalidPriority)
    } else if !due_ok(due, now) {
        Err(ValidationError::InvalidDueDate)
    } else {
        Ok(())
    }
}

/// The kind of the task's due date, if it has one.
pub open spec fn due_of(t: TaskView) -> Option<DueDate> {
    match t.due_date {
        Some(d) => Some(due_date_kind(d)),
        None => None,
    }
}

/// The outcome of validating the task at the instant `now`.
pub open spec fn validation(t: TaskView, now: Instant) -> Result<(), ValidationError> {
    check_rules(t, due_of(t), now)
}

fn has_char(s: &String, c: char) -> (r: bool)
    ensures
        r == s@.contains(c),
{
    let cs = crate::text::chars_of(s.as_str());
    let mut i: usize = 0;
    while i < cs.len()
        invariant
            i <= cs.len(),
            cs@ == s@,
            forall|j: int| 0 <= j < i ==> cs@[j] != c,
        decreases cs.len() - i,
    {
        if cs[i] == c {
            return true;
        }
        i += 1;
    }
    false
}

/// Why an operation on tasks failed.
#[derive(Clone, Copy, Debug, PartialEq, Eq, Structural)]
pub enum TaskError {
    /// A line is not a task.
    Decode(DecodeError),
    /// A task breaks a rule.
    Invalid(ValidationError),
    /// No task has this id.
    NotFound(u8),
}

/// The task that a line holds, as of the instant `now`: it must read as a task
/// and that task must pass validation.
pub open spec fn decode(line: Seq<char>, now: Instant) -> Result<TaskView, TaskError> {
    match parse_line(line) {
        Ok(t) => match validation(t, now) {
            Ok(_) => Ok(t),
            Err(v) => Err(TaskError::Invalid(v)),
        },
        Err(e) => Err(TaskError::Decode(e)),
    }
}

/// A result with the task in it seen as its value.
pub open spec fn result_view(r: Result<Task, TaskError>) -> Result<TaskView, TaskError> {
    match r {
        Ok(t) => Ok(t@),
        Err(e) => Err(e),
    }
}

impl Task {
    /// Reads a line as a task and validates it as of the instant `now`.
    pub fn from_string_at(input: &str, now: Instant) -> (r: Result<Task, TaskError>)
        ensures
            result_view(r) == decode(input@, now),
    {
        let cs = crate::text::chars_of(input);
        Task::decode_chars(&cs, now)
    }

    /// `from_string_at`, on the characters of a line.
    pub fn decode_chars(cs: &Vec<char>, now: Instant) -> (r: Result<Task, TaskError>)
        ensures
            result_view(r) == decode(cs@, now),
    {
        match Task::parse_chars(cs) {
            Ok(t) => match t.validate_at(now) {
                Ok(()) => Ok(t),
                Err(v) => Err(TaskError::Invalid(v)),
            },
            Err(e) => Err(TaskError::Decode(e)),
        }
    }

    /// Reads a line as a task and validates it as of the current time.
    pub fn from_string(input: String) -> (r: Result<Task, TaskError>)
        ensures
            exists|now: Instant| result_view(r) == decode(input@, now),
    {
        let now = clock_now();
        let r = Task::from_string_at(input.as_str(), now);
        assert(result_view(r) == decode(input@, now));
        r
    }

    /// Applies the rules to the task, given what its due date is and the time.
    pub fn check(&self, due: Option<DueDate>, now: Instant) -> (r: Result<(), ValidationError>)
        ensures
            r == check_rules(self@, due, now),
    {
        if self.id == 0 {
            return Err(ValidationError::InvalidId);
        }
        if self.title.as_str().unicode_len() == 0 || has_char(&self.title, '"') || has_char(
            &self.title,
            ';',
        ) {
            return Err(ValidationError::InvalidTitle);
        }
        if let Some(p) = self.priority {
            if p < 1 || p > 9 {
                return Err(ValidationError::InvalidPriority);
            }
        }
        match due {
            Some(DueDate::Timestamp(i)) => {
                if is_before(i, now) {
                    return Err(ValidationError::InvalidDueDate);
                }
            },
            Some(DueDate::Unreadable) => {
                return Err(ValidationError::InvalidDueDate);
            },
            _ => {},
        }
        Ok(())
    }

    /// Validates the task as of the instant `now`.
    pub fn validate_at(&self, now: Instant) -> (r: Result<(), ValidationError>)
        ensures
            r == validation(self@, now),
    {
        let due = match &self.due_date {
            Some(d) => Some(classify_due_date(d.as_str())),
            None => None,
        };
        self.check(due, now)
    }

    /// Validates the task as of the current time.
    pub fn validate(&self) -> (r: Result<(), ValidationError>)
        ensures
            exists|now: Instant| r == validation(self@, now),
    {
        let now = clock_now();
        let r = self.validate_at(now);
        assert(r == validation(self@, now));
        r
    }
}

} // verus!
