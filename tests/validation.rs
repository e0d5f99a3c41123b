use citrine::task::{Status, Task};
use citrine::validate::{classify_due_date, DueDate, Instant, ValidationError};

fn task_due(due: Option<&str>) -> Task {
    Task {
        id: 1,
        title: "t".to_string(),
        status: Status::Open,
        due_date: due.map(|d| d.to_string()),
        priority: None,
        tags: Vec::new(),
    }
}

const NOW: Instant = Instant { secs: 1_700_000_000, nanos: 500 };

#[test]
fn timestamps_are_read_as_instants() {
    assert_eq!(
        classify_due_date("1970-01-01T00:00:01+00:00"),
        DueDate::Timestamp(Instant { secs: 1, nanos: 0 })
    );
    assert_eq!(
        classify_due_date("2021-01-01T01:00:00.25+01:00"),
        DueDate::Timestamp(Instant { secs: 1_609_459_200, nanos: 250_000_000 })
    );
    assert_eq!(classify_due_date("2021-01-01"), DueDate::Calendar);
    assert_eq!(classify_due_date("2021-13-01"), DueDate::Unreadable);
    assert_eq!(classify_due_date("tomorrow"), DueDate::Unreadable);
    assert_eq!(classify_due_date(""), DueDate::Unreadable);
}

#[test]
fn far_future_timestamp_validates() {
    assert_eq!(task_due(Some("2999-01-01T00:00:00+00:00")).validate(), Ok(()));
}

#[test]
fn past_timestamp_fails() {
    assert_eq!(
        task_due(Some("2000-01-01T00:00:00+00:00")).validate(),
        Err(ValidationError::InvalidDueDate)
    );
}

#[test]
fn calendar_dates_always_pass() {
    assert_eq!(task_due(Some("1999-01-01")).validate(), Ok(()));
    assert_eq!(task_due(Some("2999-12-31")).validate(), Ok(()));
    assert_eq!(task_due(Some("1970-01-01")).validate_at(Instant { secs: i64::MAX, nanos: 0 }), Ok(()));
}

#[test]
fn timestamp_against_given_instant() {
    let t = task_due(Some("2023-11-14T22:13:20+00:00"));
    assert_eq!(t.validate_at(Instant { secs: 1_700_000_000, nanos: 0 }), Ok(()));
    assert_eq!(t.validate_at(NOW), Err(ValidationError::InvalidDueDate));
}

#[test]
fn check_with_given_due_kind() {
    let t = task_due(Some("whatever"));
    let at = Instant { secs: 10, nanos: 0 };
    assert_eq!(t.check(Some(DueDate::Calendar), at), Ok(()));
    assert_eq!(t.check(Some(DueDate::Unreadable), at), Err(ValidationError::InvalidDueDate));
    assert_eq!(t.check(Some(DueDate::Timestamp(Instant { secs: 9, nanos: 999 })), at), Err(ValidationError::InvalidDueDate));
    assert_eq!(t.check(Some(DueDate::Timestamp(Instant { secs: 10, nanos: 0 })), at), Ok(()));
    assert_eq!(t.check(None, at), Ok(()));
}

#[test]
fn each_rule() {
    let mut t = task_due(None);
    assert_eq!(t.validate_at(NOW), Ok(()));
    t.priority = Some(10);
    assert_eq!(t.validate_at(NOW), Err(ValidationError::InvalidPriority));
    t.priority = Some(0);
    assert_eq!(t.validate_at(NOW), Err(ValidationError::InvalidPriority));
    t.priority = Some(9);
    assert_eq!(t.validate_at(NOW), Ok(()));
    t.priority = Some(1);
    assert_eq!(t.validate_at(NOW), Ok(()));
    t.title = "a \"quoted\" title".to_string();
    assert_eq!(t.validate_at(NOW), Err(ValidationError::InvalidTitle));
    t.title = "semi;colon".to_string();
    assert_eq!(t.validate_at(NOW), Err(ValidationError::InvalidTitle));
    t.title = String::new();
    assert_eq!(t.validate_at(NOW), Err(ValidationError::InvalidTitle));
    t.id = 0;
    assert_eq!(t.validate_at(NOW), Err(ValidationError::InvalidId));
}
