use citrine::task::{DecodeError, Status, Task};
use citrine::validate::{Instant, TaskError, ValidationError};

fn task(id: u8, title: &str, status: Status) -> Task {
    Task {
        id,
        title: title.to_string(),
        status,
        due_date: None,
        priority: None,
        tags: Vec::new(),
    }
}

fn same(a: &Task, b: &Task) -> bool {
    a.id == b.id
        && a.title == b.title
        && a.status == b.status
        && a.due_date == b.due_date
        && a.priority == b.priority
        && a.tags == b.tags
}

const NOW: Instant = Instant { secs: 1_700_000_000, nanos: 0 };

#[test]
fn line_of_bare_task() {
    let t = task(1, "buy milk", Status::Open);
    assert_eq!(t.to_line(), "1. [ ] \"buy milk\"; ");
}

#[test]
fn line_of_full_task() {
    let mut t = task(42, "write report", Status::Done);
    t.due_date = Some("2999-01-01".to_string());
    t.priority = Some(3);
    t.tags = vec!["work".to_string(), "q3".to_string()];
    assert_eq!(
        t.to_line(),
        "42. [x] \"write report\"; due: 2999-01-01; priority: 3; tags: work, q3; "
    );
}

#[test]
fn line_markers() {
    assert_eq!(task(7, "a", Status::InProgress).to_line(), "7. [>] \"a\"; ");
    assert_eq!(task(255, "a", Status::Overdue).to_line(), "255. [!] \"a\"; ");
    assert_eq!(task(100, "a", Status::Open).to_line(), "100. [ ] \"a\"; ");
}

#[test]
fn parse_full_line() {
    let t = Task::parse("3. [>] \"call bob\"; due: 2030-05-01T10:00:00+02:00; priority: 9; tags: a, b c ,d; ")
        .unwrap();
    assert_eq!(t.id, 3);
    assert_eq!(t.status, Status::InProgress);
    assert_eq!(t.title, "call bob");
    assert_eq!(t.due_date, Some("2030-05-01T10:00:00+02:00".to_string()));
    assert_eq!(t.priority, Some(9));
    assert_eq!(t.tags, vec!["a".to_string(), "b c".to_string(), "d".to_string()]);
}

#[test]
fn parse_fields_in_any_order_and_unknown_keys() {
    let t = Task::parse("5. [x] \"t\"; tags: z; colour: red; priority: +07; due: 2024-02-29").unwrap();
    assert_eq!(t.id, 5);
    assert_eq!(t.priority, Some(7));
    assert_eq!(t.tags, vec!["z".to_string()]);
    assert_eq!(t.due_date, Some("2024-02-29".to_string()));
}

#[test]
fn parse_errors() {
    assert!(matches!(Task::parse("x. [ ] \"t\"; "), Err(DecodeError::BadId)));
    assert!(matches!(Task::parse("256. [ ] \"t\"; "), Err(DecodeError::BadId)));
    assert!(matches!(Task::parse("no dot here"), Err(DecodeError::BadId)));
    assert!(matches!(Task::parse("1. [?] \"t\"; "), Err(DecodeError::BadStatus)));
    assert!(matches!(Task::parse("1. [xx] \"t\"; "), Err(DecodeError::BadStatus)));
    assert!(matches!(Task::parse("1. [] \"t\"; "), Err(DecodeError::BadStatus)));
    assert!(matches!(Task::parse("1. \"t\"; "), Err(DecodeError::BadStatus)));
    assert!(matches!(Task::parse("1. [ ] \"t; "), Err(DecodeError::MissingTitle)));
    assert!(matches!(Task::parse("1. [ ] \"t\"; priority: high; "), Err(DecodeError::BadPriority)));
}

#[test]
fn from_string_validates() {
    let ok = Task::from_string_at("1. [ ] \"t\"; priority: 2; ", NOW).unwrap();
    assert_eq!(ok.priority, Some(2));
    assert!(matches!(
        Task::from_string_at("0. [ ] \"t\"; ", NOW),
        Err(TaskError::Invalid(ValidationError::InvalidId))
    ));
    assert!(matches!(
        Task::from_string_at("1. [ ] \"\"; ", NOW),
        Err(TaskError::Invalid(ValidationError::InvalidTitle))
    ));
    assert!(matches!(
        Task::from_string_at("1. [ ] \"t\"; priority: 0; ", NOW),
        Err(TaskError::Invalid(ValidationError::InvalidPriority))
    ));
    assert!(matches!(
        Task::from_string_at("1. [ ] \"t\"; due: soon; ", NOW),
        Err(TaskError::Invalid(ValidationError::InvalidDueDate))
    ));
    assert!(matches!(
        Task::from_string_at("garbage", NOW),
        Err(TaskError::Decode(DecodeError::BadId))
    ));
}

#[test]
fn from_string_with_clock() {
    let t = Task::from_string("9. [!] \"late\"; due: 2999-01-01T00:00:00+00:00; ".to_string()).unwrap();
    assert_eq!(t.id, 9);
    assert_eq!(t.status, Status::Overdue);
}

#[test]
fn round_trip_tasks() {
    let mut full = task(12, "plan trip", Status::InProgress);
    full.due_date = Some("2999-01-01T00:00:00+00:00".to_string());
    full.priority = Some(1);
    full.tags = vec!["travel".to_string(), "".to_string(), "family time".to_string()];
    let mut calendar = task(200, "renew passport: soon", Status::Done);
    calendar.due_date = Some("1990-01-01".to_string());
    calendar.tags = vec!["".to_string()];
    for t in [task(1, "x", Status::Open), full, calendar] {
        let back = Task::from_string_at(&t.to_line(), NOW).unwrap();
        assert!(same(&t, &back), "{:?} came back as {:?}", t, back);
    }
}

#[test]
fn in_progress_marker_round_trips() {
    let t = task(4, "review", Status::InProgress);
    let line = t.to_line();
    assert!(line.contains("[>]"));
    let back = Task::from_string_at(&line, NOW).unwrap();
    assert_eq!(back.status, Status::InProgress);
}

#[test]
fn status_keywords() {
    assert_eq!(Status::from_keyword("open"), Some(Status::Open));
    assert_eq!(Status::from_keyword("in-progress"), Some(Status::InProgress));
    assert_eq!(Status::from_keyword("done"), Some(Status::Done));
    assert_eq!(Status::from_keyword("overdue"), Some(Status::Overdue));
    assert_eq!(Status::from_keyword("Done"), None);
    assert_eq!(Status::from_keyword("x"), None);
    assert_eq!(Status::from_marker('>'), Some(Status::InProgress));
    assert_eq!(Status::from_marker('-'), None);
}
